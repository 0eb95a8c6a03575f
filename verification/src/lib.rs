//! Scanning core of a live-memory search tool.
//!
//! Given byte chunks read from another process together with a per-page
//! success bitmap, the library finds every window that satisfies a query
//! (a single typed value, or an ordered / unordered group of values that
//! must lie within a byte range) and collects the addresses of the matched
//! values in a set ordered by address.
pub mod chunking;
pub mod deep;
pub mod error;
pub mod filter;
pub mod group_search;
pub mod laws;
pub mod manager;
pub mod matcher;
pub mod memory_mode;
pub mod page;
pub mod pair_order;
pub mod progress;
pub mod refine;
pub mod refine_laws;
pub mod region;
pub mod result_manager;
pub mod results;
pub mod scan;
pub mod single_search;
pub mod types;

pub use deep::{deep_match_group, DEFAULT_COMBINATION_LIMIT};
pub use error::SearchError;
pub use filter::SearchFilter;
pub use group_search::{
    search_in_buffer_group, search_in_buffer_group_deep, search_in_buffer_group_fallback,
    search_in_buffer_group_with,
};
pub use manager::{SearchEngineManager, SearchProgressCallback, DEFAULT_CHUNK_SIZE};
pub use matcher::{try_match_group_at_address, try_match_ordered, try_match_unordered};
pub use memory_mode::MemoryAccessMode;
pub use page::{page_size, PageStatusBitmap, DEFAULT_PAGE_SIZE};
pub use progress::{progress_percent, ProgressBuffer, PROGRESS_BUFFER_LEN};
pub use refine::{refine_search_group_with_dfs, refine_single_search};
pub use region::RegionScan;
pub use result_manager::{
    ExactSearchResultItem, FuzzySearchResultItem, SearchResultItem, SearchResultManager,
    SearchResultMode,
};
pub use results::{ValuePair, ValuePairSet};
pub use scan::Depth;
pub use single_search::search_in_buffer_with_status;
pub use types::{MatchError, SearchMode, SearchQuery, SearchValue, ValueType};
