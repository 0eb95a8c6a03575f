//! The filter that is applied to results when they are listed.
use crate::types::ValueType;
use vstd::prelude::*;

verus! {

/// A filter by address range and by value type. It is applied when results
/// are listed; what is stored stays as it is.
#[derive(Debug, Clone)]
pub struct SearchFilter {
    /// Whether results are filtered by address.
    pub enable_address_filter: bool,
    /// The first address that passes.
    pub address_start: u64,
    /// The address behind the last that passes.
    pub address_end: u64,
    /// Whether results are filtered by type.
    pub enable_type_filter: bool,
    /// The types that pass.
    pub type_ids: Vec<ValueType>,
}

impl SearchFilter {
    /// Whether a result at `addr` of type `value_type` passes: where the
    /// address filter is on, the address lies in `address_start ..
    /// address_end`, and where the type filter is on, the type is one of
    /// `type_ids`.
    pub open spec fn passes(&self, addr: u64, value_type: ValueType) -> bool {
        &&& self.enable_address_filter ==> self.address_start <= addr < self.address_end
        &&& self.enable_type_filter ==> self.type_ids@.contains(value_type)
    }

    /// Whether the filter is the one that `new` makes.
    pub open spec fn is_cleared(&self) -> bool {
        &&& !self.enable_address_filter
        &&& self.address_start == 0
        &&& self.address_end == 0
        &&& !self.enable_type_filter
        &&& self.type_ids@.len() == 0
    }

    /// A filter that lets every result pass.
    pub fn new() -> (filter: SearchFilter)
        ensures
            filter.is_cleared(),
    {
        SearchFilter {
            enable_address_filter: false,
            address_start: 0,
            address_end: 0,
            enable_type_filter: false,
            type_ids: Vec::new(),
        }
    }

    /// Whether a filter is switched on or types are listed.
    #[inline]
    pub fn is_active(&self) -> (active: bool)
        ensures
            active == (self.enable_address_filter || self.enable_type_filter
                || self.type_ids@.len() > 0),
    {
        self.enable_address_filter || self.enable_type_filter || self.type_ids.len() > 0
    }

    /// Puts the filter back to the one that `new` makes.
    #[inline]
    pub fn clear(&mut self)
        ensures
            final(self).is_cleared(),
    {
        *self = SearchFilter::new();
    }

    /// Whether a result at `addr` of type `value_type` passes the filter.
    pub fn accepts(&self, addr: u64, value_type: ValueType) -> (ok: bool)
        ensures
            ok == self.passes(addr, value_type),
    {
        if self.enable_address_filter && !(self.address_start <= addr && addr < self.address_end) {
            return false;
        }
        if self.enable_type_filter {
            return holds_type(&self.type_ids, value_type);
        }
        true
    }
}

/// Whether `value_type` is one of `types`.
fn holds_type(types: &Vec<ValueType>, value_type: ValueType) -> (held: bool)
    ensures
        held == types@.contains(value_type),
{
    let mut i: usize = 0;
    while i < types.len()
        invariant
            0 <= i <= types@.len(),
            forall|j: int| 0 <= j < i ==> types@[j] != value_type,
        decreases types@.len() - i,
    {
        if types[i] == value_type {
            return true;
        }
        i += 1;
    }
    false
}

impl Default for SearchFilter {
    fn default() -> (filter: SearchFilter)
        ensures
            filter.is_cleared(),
    {
        SearchFilter::new()
    }
}

} // verus!
