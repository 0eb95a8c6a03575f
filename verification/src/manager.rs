//! The search manager: holds the result store, the filter and the progress
//! area, takes the results of the region scans into the store, and refines
//! stored results.
use crate::deep::DEFAULT_COMBINATION_LIMIT;
use crate::error::SearchError;
use crate::filter::SearchFilter;
use crate::group_search::{scan_input, search_in_buffer_group_with};
use crate::matcher::{group_offsets, same_offsets};
use crate::page::PageStatusBitmap;
use crate::progress::{with_progress, ProgressBuffer};
use crate::refine::{
    group_refine, refine_search_group_with_dfs, refine_single, refine_single_search, views_of,
};
use crate::result_manager::{
    add_all, exact_among, items_of, ExactSearchResultItem, SearchResultItem,
    SearchResultManager, SearchResultMode, StoreView,
};
use crate::results::{insert_all, lists_pairs, ValuePair, ValuePairSet};
use crate::scan::Depth;
use crate::single_search::single_scan;
use crate::types::{SearchQuery, SearchValue, ValueType};
use vstd::prelude::*;

verus! {

/// The number of bytes read at a time where the host names no other.
pub const DEFAULT_CHUNK_SIZE: usize = 524288;

/// What the host implements to learn that a search is complete.
pub trait SearchProgressCallback: Send + Sync {
    /// Called once a search or a refinement has ended, with the number of
    /// results, the number of regions searched and the time taken.
    fn on_search_complete(&self, total_found: usize, total_regions: usize, elapsed_millis: u64);
}

/// The types that the ids among the first `n` stand for, in their order;
/// an id that stands for no type is left out.
pub open spec fn types_of(ids: Seq<i32>, n: int) -> Seq<ValueType>
    decreases n,
{
    if n <= 0 {
        Seq::empty()
    } else {
        match ValueType::spec_from_id(ids[n - 1] as int) {
            Some(value_type) => types_of(ids, n - 1).push(value_type),
            None => types_of(ids, n - 1),
        }
    }
}

/// Those of the first `n` results that pass the filter, in their order.
pub open spec fn passing(items: Seq<SearchResultItem>, filter: SearchFilter, n: int) -> Seq<
    SearchResultItem,
>
    decreases n,
{
    if n <= 0 {
        Seq::empty()
    } else if filter.passes(items[n - 1].spec_address(), items[n - 1].spec_value_type()) {
        passing(items, filter, n - 1).push(items[n - 1])
    } else {
        passing(items, filter, n - 1)
    }
}

/// The part of a listing that a page shows: from number `start` on, `size`
/// results or as many as there are.
pub open spec fn page_of(listing: Seq<SearchResultItem>, start: int, size: int) -> Seq<
    SearchResultItem,
> {
    listing.subrange(
        if start <= listing.len() {
            start
        } else {
            listing.len() as int
        },
        if start + size <= listing.len() {
            start + size
        } else {
            listing.len() as int
        },
    )
}

/// The pairs that exact results stand for.
pub open spec fn pairs_of_exact(exact: Seq<ExactSearchResultItem>) -> Seq<ValuePair> {
    exact.map_values(|item: ExactSearchResultItem| ValuePair { addr: item.address, value_type: item.typ })
}

/// The store's content after the results of the first `n` regions were
/// taken in, region after region.
pub open spec fn merged_regions(regions: Seq<Vec<ValuePair>>, n: int) -> Seq<SearchResultItem>
    decreases n,
{
    if n <= 0 {
        Seq::empty()
    } else {
        add_all(merged_regions(regions, n - 1), items_of(regions[n - 1]@))
    }
}

/// Whether `items` are the exact results for the pairs of `found`, each
/// address once, by ascending address.
pub open spec fn lists_items(items: Seq<SearchResultItem>, found: Map<u64, ValueType>) -> bool {
    exists|pairs: Seq<ValuePair>| lists_pairs(pairs, found) && items == #[trigger] items_of(pairs)
}

/// The greatest width among the first `n` values, and 0 when there is
/// none.
pub open spec fn prefix_max_width(values: Seq<SearchValue>, n: int) -> nat
    decreases n,
{
    if n <= 0 {
        0
    } else if values[n - 1].width() > prefix_max_width(values, n - 1) {
        values[n - 1].width()
    } else {
        prefix_max_width(values, n - 1)
    }
}

/// The number of bytes that a refinement reads at the address of a stored
/// result: the range of the query and the width of its widest value on
/// top.
pub open spec fn refine_window_len(query: SearchQuery) -> int {
    query.range + prefix_max_width(query.values@, query.values@.len() as int)
}

/// What the manager holds.
pub struct ManagerView {
    /// The result store, once the manager was initialised.
    pub store: Option<StoreView>,
    /// The number of bytes read at a time.
    pub chunk_size: int,
    /// The filter applied to listings.
    pub filter: SearchFilter,
    /// The progress area, where the host gave one.
    pub progress: Option<Seq<u8>>,
}

/// The search manager.
pub struct SearchEngineManager {
    result_manager: Option<SearchResultManager>,
    chunk_size: usize,
    filter: SearchFilter,
    progress_buffer: Option<ProgressBuffer>,
}

impl View for SearchEngineManager {
    type V = ManagerView;

    closed spec fn view(&self) -> ManagerView {
        ManagerView {
            store: match self.result_manager {
                Some(store) => Some(store@),
                None => None,
            },
            chunk_size: self.chunk_size as int,
            filter: self.filter,
            progress: match self.progress_buffer {
                Some(buffer) => Some(buffer@),
                None => None,
            },
        }
    }
}

impl SearchEngineManager {
    /// A manager that was not initialised, with a chunk size of 512 KiB, a
    /// cleared filter and no progress area.
    pub fn new() -> (manager: SearchEngineManager)
        ensures
            manager@.store.is_none(),
            manager@.chunk_size == DEFAULT_CHUNK_SIZE,
            manager@.filter.is_cleared(),
            manager@.progress.is_none(),
    {
        SearchEngineManager {
            result_manager: None,
            chunk_size: DEFAULT_CHUNK_SIZE,
            filter: SearchFilter::new(),
            progress_buffer: None,
        }
    }

    /// Gives the manager a progress area of `len` bytes, all zero.
    pub fn set_progress_buffer(&mut self, len: usize)
        ensures
            final(self)@.progress.is_some(),
            final(self)@.progress.unwrap().len() == len,
            forall|i: int| 0 <= i < len ==> final(self)@.progress.unwrap()[i] == 0,
            final(self)@.store == old(self)@.store,
            final(self)@.chunk_size == old(self)@.chunk_size,
            final(self)@.filter == old(self)@.filter,
    {
        self.progress_buffer = Some(ProgressBuffer::new(len));
    }

    /// Takes the progress area away.
    pub fn clear_progress_buffer(&mut self)
        ensures
            final(self)@ == (ManagerView { progress: None, ..old(self)@ }),
    {
        self.progress_buffer = None;
    }

    /// The progress area, where the host gave one.
    pub fn progress_buffer(&self) -> (buffer: Option<&ProgressBuffer>)
        ensures
            match buffer {
                Some(area) => self@.progress == Some(area@),
                None => self@.progress.is_none(),
            },
    {
        self.progress_buffer.as_ref()
    }

    /// Writes progress, regions searched and results found into the
    /// progress area, where there is one.
    pub fn report_progress(&mut self, progress: i32, regions_searched: i32, total_found: i64)
        ensures
            final(self)@.store == old(self)@.store,
            final(self)@.chunk_size == old(self)@.chunk_size,
            final(self)@.filter == old(self)@.filter,
            final(self)@.progress == (match old(self)@.progress {
                Some(bytes) => Some(with_progress(bytes, progress, regions_searched, total_found)),
                None => None,
            }),
    {
        let taken = self.progress_buffer.take();
        match taken {
            Some(mut buffer) => {
                buffer.update(progress, regions_searched, total_found);
                self.progress_buffer = Some(buffer);
            },
            None => {},
        }
    }

    /// Makes an empty result store and sets the chunk size: `chunk_size`,
    /// or 512 KiB where it is 0. A manager that was initialised before
    /// loses its results. `cache_dir` names the directory that the host
    /// offers for results that memory cannot hold; this store keeps all
    /// results in memory.
    pub fn init(&mut self, memory_buffer_size: usize, cache_dir: String, chunk_size: usize) -> (done:
        Result<(), SearchError>)
        ensures
            done.is_ok(),
            final(self)@.store == Some(
                StoreView { mode: SearchResultMode::Exact, items: Seq::empty() },
            ),
            final(self)@.chunk_size == (if chunk_size == 0 {
                DEFAULT_CHUNK_SIZE
            } else {
                chunk_size
            }),
            final(self)@.filter == old(self)@.filter,
            final(self)@.progress == old(self)@.progress,
    {
        let _ = cache_dir;
        self.result_manager = Some(SearchResultManager::new(memory_buffer_size));
        self.chunk_size = if chunk_size == 0 {
            DEFAULT_CHUNK_SIZE
        } else {
            chunk_size
        };
        Ok(())
    }

    pub fn is_initialized(&self) -> (initialized: bool)
        ensures
            initialized == self@.store.is_some(),
    {
        self.result_manager.is_some()
    }

    /// The number of bytes that a region scan reads at a time.
    pub fn chunk_size(&self) -> (size: usize)
        ensures
            size == self@.chunk_size,
    {
        self.chunk_size
    }

    /// Takes the results of a new search into the store. `region_results`
    /// holds, for each region in the order of the regions, the pairs that
    /// the scan of the region found.
    ///
    /// Fails, and changes nothing, where the manager was not initialised,
    /// where the query has no value, and where the query has several
    /// values and a range smaller than their widths together. Else the
    /// results of the last search are dropped, the store is set to exact
    /// results and takes the pairs region after region; the number of
    /// results that it then holds is returned.
    pub fn search_memory(&mut self, query: &SearchQuery, region_results: &Vec<Vec<ValuePair>>) -> (found:
        Result<usize, SearchError>)
        ensures
            final(self)@.chunk_size == old(self)@.chunk_size,
            final(self)@.filter == old(self)@.filter,
            final(self)@.progress == old(self)@.progress,
            old(self)@.store.is_none() ==> found == Err::<usize, SearchError>(
                SearchError::NotInitialized,
            ) && final(self)@.store.is_none(),
            old(self)@.store.is_some() && query.refusal().is_some() ==> found == Err::<
                usize,
                SearchError,
            >(query.refusal().unwrap()) && final(self)@.store == old(self)@.store,
            old(self)@.store.is_some() && query.refusal().is_none() ==> {
                &&& final(self)@.store == Some(
                    StoreView {
                        mode: SearchResultMode::Exact,
                        items: merged_regions(region_results@, region_results@.len() as int),
                    },
                )
                &&& found == Ok::<usize, SearchError>(
                    merged_regions(region_results@, region_results@.len() as int).len() as usize,
                )
            },
    {
        let taken = self.result_manager.take();
        let mut store = match taken {
            None => {
                return Err(SearchError::NotInitialized);
            },
            Some(store) => store,
        };
        match query.validate() {
            Err(error) => {
                self.result_manager = Some(store);
                return Err(error);
            },
            Ok(()) => {},
        }
        store.clear();
        store.set_mode(SearchResultMode::Exact);
        let mut r: usize = 0;
        while r < region_results.len()
            invariant
                0 <= r <= region_results@.len(),
                store@.mode == SearchResultMode::Exact,
                store@.items == merged_regions(region_results@, r as int),
            decreases region_results@.len() - r,
        {
            let batch = exact_items(&region_results[r]);
            store.add_results_batch(batch);
            r += 1;
        }
        let count = store.total_count();
        self.result_manager = Some(store);
        Ok(count)
    }

    /// The results that pass the filter, from number `start` on, `size` of
    /// them or as many as there are. Fails where the manager was not
    /// initialised.
    pub fn get_results(&self, start: usize, size: usize) -> (page: Result<
        Vec<SearchResultItem>,
        SearchError,
    >)
        ensures
            match self@.store {
                None => page == Err::<Vec<SearchResultItem>, SearchError>(
                    SearchError::NotInitialized,
                ),
                Some(store) => page.is_ok() && page.unwrap()@ == page_of(
                    passing(store.items, self@.filter, store.items.len() as int),
                    start as int,
                    size as int,
                ),
            },
    {
        let store = match &self.result_manager {
            None => {
                return Err(SearchError::NotInitialized);
            },
            Some(store) => store,
        };
        let count = store.total_count();
        let all = store.get_results(0, count);
        assert(all@ =~= store@.items);
        let mut listing: Vec<SearchResultItem> = Vec::new();
        let mut i: usize = 0;
        while i < all.len()
            invariant
                0 <= i <= all@.len(),
                listing@ == passing(all@, self.filter, i as int),
                listing@.len() <= i,
            decreases all@.len() - i,
        {
            let item = all[i];
            if self.filter.accepts(item.address(), item.value_type()) {
                listing.push(item);
            }
            i += 1;
        }
        let length = listing.len();
        let from = if start <= length {
            start
        } else {
            length
        };
        let upto = if size <= length - from {
            from + size
        } else {
            length
        };
        let mut page: Vec<SearchResultItem> = Vec::new();
        let mut k: usize = from;
        while k < upto
            invariant
                from <= k <= upto <= length,
                length == listing@.len(),
                page@ == listing@.subrange(from as int, k as int),
            decreases upto - k,
        {
            page.push(listing[k]);
            proof {
                assert(page@ =~= listing@.subrange(from as int, k as int + 1));
            }
            k += 1;
        }
        Ok(page)
    }

    /// The number of results in the store. Fails where the manager was not
    /// initialised.
    pub fn get_total_count(&self) -> (count: Result<usize, SearchError>)
        ensures
            match self@.store {
                None => count == Err::<usize, SearchError>(SearchError::NotInitialized),
                Some(store) => count == Ok::<usize, SearchError>(store.items.len() as usize),
            },
    {
        match &self.result_manager {
            None => Err(SearchError::NotInitialized),
            Some(store) => Ok(store.total_count()),
        }
    }

    /// Removes every result. Fails where the manager was not initialised.
    pub fn clear_results(&mut self) -> (done: Result<(), SearchError>)
        ensures
            final(self)@.chunk_size == old(self)@.chunk_size,
            final(self)@.filter == old(self)@.filter,
            final(self)@.progress == old(self)@.progress,
            match old(self)@.store {
                None => done == Err::<(), SearchError>(SearchError::NotInitialized) && final(self)@.store.is_none(),
                Some(store) => done.is_ok() && final(self)@.store == Some(
                    StoreView { mode: store.mode, items: Seq::empty() },
                ),
            },
    {
        let taken = self.result_manager.take();
        match taken {
            None => Err(SearchError::NotInitialized),
            Some(mut store) => {
                store.clear();
                self.result_manager = Some(store);
                Ok(())
            },
        }
    }

    /// Removes result number `index` of the store. Fails where the manager
    /// was not initialised, and where the store has no such result.
    pub fn remove_result(&mut self, index: usize) -> (done: Result<(), SearchError>)
        ensures
            final(self)@.chunk_size == old(self)@.chunk_size,
            final(self)@.filter == old(self)@.filter,
            final(self)@.progress == old(self)@.progress,
            match old(self)@.store {
                None => done == Err::<(), SearchError>(SearchError::NotInitialized) && final(self)@.store.is_none(),
                Some(store) => if index < store.items.len() {
                    done.is_ok() && final(self)@.store == Some(
                        StoreView { mode: store.mode, items: store.items.remove(index as int) },
                    )
                } else {
                    done == Err::<(), SearchError>(SearchError::ResultStoreError) && final(self)@.store == Some(store)
                },
            },
    {
        let taken = self.result_manager.take();
        match taken {
            None => Err(SearchError::NotInitialized),
            Some(mut store) => {
                let done = store.remove_result(index);
                self.result_manager = Some(store);
                done
            },
        }
    }

    /// Removes the results of the store whose numbers are listed. Fails
    /// where the manager was not initialised, and where a number is listed
    /// that no result has; nothing is removed then.
    pub fn remove_results_batch(&mut self, indices: Vec<usize>) -> (done: Result<(), SearchError>)
        ensures
            final(self)@.chunk_size == old(self)@.chunk_size,
            final(self)@.filter == old(self)@.filter,
            final(self)@.progress == old(self)@.progress,
            match old(self)@.store {
                None => done == Err::<(), SearchError>(SearchError::NotInitialized) && final(self)@.store.is_none(),
                Some(store) => if forall|i: int|
                    0 <= i < indices@.len() ==> indices@[i] < store.items.len() {
                    done.is_ok() && final(self)@.store == Some(
                        StoreView {
                            mode: store.mode,
                            items: crate::result_manager::without(
                                store.items,
                                indices@,
                                store.items.len() as int,
                            ),
                        },
                    )
                } else {
                    done == Err::<(), SearchError>(SearchError::ResultStoreError) && final(self)@.store == Some(store)
                },
            },
    {
        let taken = self.result_manager.take();
        match taken {
            None => Err(SearchError::NotInitialized),
            Some(mut store) => {
                let done = store.remove_results_batch(indices);
                self.result_manager = Some(store);
                done
            },
        }
    }

    /// Sets the filter. An id in `type_ids` that stands for no type is
    /// left out.
    pub fn set_filter(
        &mut self,
        enable_address_filter: bool,
        address_start: u64,
        address_end: u64,
        enable_type_filter: bool,
        type_ids: Vec<i32>,
    ) -> (done: Result<(), SearchError>)
        ensures
            done.is_ok(),
            final(self)@.store == old(self)@.store,
            final(self)@.chunk_size == old(self)@.chunk_size,
            final(self)@.progress == old(self)@.progress,
            final(self)@.filter.enable_address_filter == enable_address_filter,
            final(self)@.filter.address_start == address_start,
            final(self)@.filter.address_end == address_end,
            final(self)@.filter.enable_type_filter == enable_type_filter,
            final(self)@.filter.type_ids@ == types_of(type_ids@, type_ids@.len() as int),
    {
        let mut types: Vec<ValueType> = Vec::new();
        let mut i: usize = 0;
        while i < type_ids.len()
            invariant
                0 <= i <= type_ids@.len(),
                types@ == types_of(type_ids@, i as int),
            decreases type_ids@.len() - i,
        {
            match ValueType::from_id(type_ids[i]) {
                Some(value_type) => {
                    types.push(value_type);
                },
                None => {},
            }
            i += 1;
        }
        self.filter = SearchFilter {
            enable_address_filter,
            address_start,
            address_end,
            enable_type_filter,
            type_ids: types,
        };
        Ok(())
    }

    /// Puts the filter back to one that lets every result pass.
    pub fn clear_filter(&mut self) -> (done: Result<(), SearchError>)
        ensures
            done.is_ok(),
            final(self)@.store == old(self)@.store,
            final(self)@.chunk_size == old(self)@.chunk_size,
            final(self)@.progress == old(self)@.progress,
            final(self)@.filter.is_cleared(),
    {
        self.filter = SearchFilter::new();
        Ok(())
    }

    pub fn get_filter(&self) -> (filter: &SearchFilter)
        ensures
            *filter == self@.filter,
    {
        &self.filter
    }

    /// The kind of results that the store holds. Fails where the manager
    /// was not initialised.
    pub fn get_current_mode(&self) -> (mode: Result<SearchResultMode, SearchError>)
        ensures
            match self@.store {
                None => mode == Err::<SearchResultMode, SearchError>(SearchError::NotInitialized),
                Some(store) => mode == Ok::<SearchResultMode, SearchError>(store.mode),
            },
    {
        match &self.result_manager {
            None => Err(SearchError::NotInitialized),
            Some(store) => Ok(store.get_mode()),
        }
    }

    /// The windows that the reader is to read before `refine_search`: for
    /// each exact result of the store, in the order of the store, its
    /// address and the number of bytes to read there. Fails where the
    /// manager was not initialised.
    pub fn refine_windows(&self, query: &SearchQuery) -> (requests: Result<
        Vec<(u64, u64)>,
        SearchError,
    >)
        ensures
            match self@.store {
                None => requests == Err::<Vec<(u64, u64)>, SearchError>(
                    SearchError::NotInitialized,
                ),
                Some(store) => {
                    let exact = exact_among(store.items, store.items.len() as int);
                    &&& requests.is_ok()
                    &&& requests.unwrap()@.len() == exact.len()
                    &&& forall|i: int|
                        0 <= i < exact.len() ==> (#[trigger] requests.unwrap()@[i]) == (
                            exact[i].address,
                            refine_window_len(*query) as u64,
                        )
                },
            },
    {
        let store = match &self.result_manager {
            None => {
                return Err(SearchError::NotInitialized);
            },
            Some(store) => store,
        };
        let exact = store.get_all_exact_results();
        let mut widest: u64 = 0;
        let mut v: usize = 0;
        while v < query.values.len()
            invariant
                0 <= v <= query.values@.len(),
                widest == prefix_max_width(query.values@, v as int),
                widest <= 8,
            decreases query.values@.len() - v,
        {
            let size = query.values[v].value_type().size() as u64;
            if size > widest {
                widest = size;
            }
            v += 1;
        }
        let mut requests: Vec<(u64, u64)> = Vec::new();
        let mut i: usize = 0;
        while i < exact.len()
            invariant
                0 <= i <= exact@.len(),
                requests@.len() == i,
                widest == prefix_max_width(query.values@, query.values@.len() as int),
                widest <= 8,
                forall|j: int|
                    0 <= j < i ==> (#[trigger] requests@[j]) == (
                        exact@[j].address,
                        refine_window_len(*query) as u64,
                    ),
            decreases exact@.len() - i,
        {
            let item = exact[i];
            requests.push((item.address, query.range as u64 + widest));
            i += 1;
        }
        Ok(requests)
    }

    /// Refines the exact results of the store against a new query.
    /// `windows[i]` holds the bytes read at the address of the store's
    /// exact result number `i`, or `None` where they could not be read.
    ///
    /// Fails where the manager was not initialised. Where the store holds
    /// no exact result, nothing changes and 0 is returned. Else the store
    /// is emptied, set to exact results and takes the results that stay: a
    /// query of one value keeps the results whose window starts, in the
    /// width of the result's type, with a match, and any other query keeps
    /// the results that belong to a group found among neighbouring
    /// results. The number of results that stay
    /// is returned.
    pub fn refine_search(&mut self, query: &SearchQuery, windows: &Vec<Option<Vec<u8>>>) -> (found:
        Result<usize, SearchError>)
        ensures
            final(self)@.chunk_size == old(self)@.chunk_size,
            final(self)@.filter == old(self)@.filter,
            final(self)@.progress == old(self)@.progress,
            match old(self)@.store {
                None => found == Err::<usize, SearchError>(SearchError::NotInitialized) && final(self)@.store.is_none(),
                Some(store) => {
                    let current = pairs_of_exact(exact_among(store.items, store.items.len() as int));
                    if current.len() == 0 {
                        found == Ok::<usize, SearchError>(0) && final(self)@.store == Some(store)
                    } else {
                        &&& final(self)@.store.is_some()
                        &&& final(self)@.store.unwrap().mode == SearchResultMode::Exact
                        &&& found == Ok::<usize, SearchError>(
                            final(self)@.store.unwrap().items.len() as usize,
                        )
                        &&& if query.values@.len() == 1 {
                            final(self)@.store.unwrap().items == add_all(
                                Seq::empty(),
                                items_of(
                                    refine_single(
                                        current,
                                        views_of(windows@),
                                        query.values@[0],
                                        current.len() as int,
                                    ),
                                ),
                            )
                        } else {
                            lists_items(
                                final(self)@.store.unwrap().items,
                                insert_all(
                                    Map::<u64, ValueType>::empty(),
                                    group_refine(current, views_of(windows@), *query).pairs(),
                                ),
                            )
                        }
                    }
                },
            },
    {
        let taken = self.result_manager.take();
        let mut store = match taken {
            None => {
                return Err(SearchError::NotInitialized);
            },
            Some(store) => store,
        };
        let exact = store.get_all_exact_results();
        let mut current: Vec<ValuePair> = Vec::new();
        let mut i: usize = 0;
        while i < exact.len()
            invariant
                0 <= i <= exact@.len(),
                current@ == pairs_of_exact(exact@.take(i as int)),
            decreases exact@.len() - i,
        {
            current.push(ValuePair::new(exact[i].address, exact[i].typ));
            proof {
                assert(current@ =~= pairs_of_exact(exact@.take(i as int + 1)));
            }
            i += 1;
        }
        proof {
            assert(exact@.take(exact@.len() as int) =~= exact@);
        }
        if current.len() == 0 {
            self.result_manager = Some(store);
            return Ok(0);
        }
        store.clear();
        store.set_mode(SearchResultMode::Exact);
        if query.values.len() == 1 {
            let refined = refine_single_search(&current, windows, &query.values[0]);
            store.add_results_batch(exact_items(&refined));
        } else {
            let refined = refine_search_group_with_dfs(&current, windows, query);
            let listing = refined.to_vec();
            store.add_results_batch(exact_items(&listing));
            proof {
                lemma_add_ascending(listing@, listing@.len() as int);
                assert(listing@.take(listing@.len() as int) =~= listing@);
            }
        }
        let count = store.total_count();
        self.result_manager = Some(store);
        Ok(count)
    }

    /// Scans a buffer for a single value; see
    /// `single_search::search_in_buffer_with_status`.
    pub fn search_in_buffer_with_status(
        buffer: &[u8],
        buffer_addr: u64,
        region_start: u64,
        region_end: u64,
        alignment: usize,
        search_value: &SearchValue,
        value_type: ValueType,
        page_status: &PageStatusBitmap,
        results: &mut ValuePairSet,
        matches_checked: &mut usize,
    )
        requires
            alignment > 0,
            buffer_addr + buffer@.len() <= u64::MAX,
            *old(matches_checked) + buffer@.len() <= usize::MAX,
        ensures
            ({
                let scan = single_scan(
                    buffer@,
                    buffer_addr,
                    region_start,
                    region_end,
                    alignment,
                    *search_value,
                    value_type,
                    *page_status,
                );
                &&& final(results)@ == insert_all(old(results)@, scan.pairs())
                &&& *final(matches_checked) == *old(matches_checked) + scan.probes()
            }),
    {
        crate::single_search::search_in_buffer_with_status(
            buffer,
            buffer_addr,
            region_start,
            region_end,
            alignment,
            search_value,
            value_type,
            page_status,
            results,
            matches_checked,
        )
    }

    /// Matches the query in the window in the query's own mode; see
    /// `matcher::try_match_group_at_address`.
    pub fn try_match_group_at_address(buffer: &[u8], addr: u64, query: &SearchQuery) -> (found:
        Option<Vec<usize>>)
        ensures
            same_offsets(found, group_offsets(buffer@, query.values@, query.mode)),
    {
        crate::matcher::try_match_group_at_address(buffer, addr, query)
    }

    /// Scans a buffer for every combination that matches; see
    /// `group_search::search_in_buffer_group_deep`.
    pub fn search_in_buffer_group_deep(
        buffer: &[u8],
        buffer_addr: u64,
        region_start: u64,
        region_end: u64,
        min_element_size: usize,
        query: &SearchQuery,
        page_status: &PageStatusBitmap,
        results: &mut ValuePairSet,
        matches_checked: &mut usize,
    )
        requires
            min_element_size > 0,
            buffer_addr + buffer@.len() <= u64::MAX,
            query.values@.len() <= usize::MAX / 8,
            *old(matches_checked) + buffer@.len() <= usize::MAX,
        ensures
            ({
                let input = scan_input(
                    buffer@,
                    buffer_addr,
                    region_start,
                    region_end,
                    min_element_size,
                    *query,
                    *page_status,
                );
                &&& final(results)@ == insert_all(
                    old(results)@,
                    input.pairs(
                        input.scanner(),
                        Depth::Exhaustive { limit: DEFAULT_COMBINATION_LIMIT },
                    ),
                )
                &&& *final(matches_checked) == *old(matches_checked) + input.probes(
                    input.scanner(),
                )
            }),
    {
        search_in_buffer_group_with(
            buffer,
            buffer_addr,
            region_start,
            region_end,
            min_element_size,
            query,
            page_status,
            Depth::Exhaustive { limit: DEFAULT_COMBINATION_LIMIT },
            results,
            matches_checked,
        )
    }
}

/// The exact results that stand for the pairs.
fn exact_items(pairs: &Vec<ValuePair>) -> (items: Vec<SearchResultItem>)
    ensures
        items@ == items_of(pairs@),
{
    let mut items: Vec<SearchResultItem> = Vec::new();
    let mut i: usize = 0;
    while i < pairs.len()
        invariant
            0 <= i <= pairs@.len(),
            items@ == items_of(pairs@.take(i as int)),
        decreases pairs@.len() - i,
    {
        items.push(SearchResultItem::new_exact(pairs[i].addr, pairs[i].value_type));
        proof {
            assert(items@ =~= items_of(pairs@.take(i as int + 1)));
        }
        i += 1;
    }
    proof {
        assert(pairs@.take(pairs@.len() as int) =~= pairs@);
    }
    items
}

/// Adding results to an empty store by strictly ascending address leaves
/// them as they come.
pub proof fn lemma_add_ascending(pairs: Seq<ValuePair>, n: int)
    requires
        0 <= n <= pairs.len(),
        forall|i: int, j: int|
            0 <= i < j < pairs.len() ==> (#[trigger] pairs[i]).addr < (#[trigger] pairs[j]).addr,
    ensures
        add_all(Seq::empty(), items_of(pairs.take(n))) == items_of(pairs.take(n)),
    decreases n,
{
    let items = items_of(pairs.take(n));
    if n > 0 {
        lemma_add_ascending(pairs, n - 1);
        let front = items_of(pairs.take(n - 1));
        assert(items.drop_last() =~= front);
        let last = items.last();
        assert(last.spec_address() == pairs[n - 1].addr);
        if n > 1 {
            assert(front.last().spec_address() == pairs[n - 2].addr);
            assert(pairs[n - 2].addr < pairs[n - 1].addr);
        }
        assert(crate::result_manager::place(front, last.spec_address()) == front.len());
        assert(front.insert(front.len() as int, last) =~= items);
    } else {
        assert(items =~= Seq::<SearchResultItem>::empty());
    }
}

} // verus!
