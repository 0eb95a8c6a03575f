//! The order of pairs: by address alone.
use crate::results::ValuePair;
use core::cmp::Ordering;
use vstd::prelude::*;

verus! {

impl PartialOrd for ValuePair {
    /// Pairs are ordered by their addresses; their types play no part.
    fn partial_cmp(&self, other: &ValuePair) -> (order: Option<Ordering>) {
        if self.addr < other.addr {
            Some(Ordering::Less)
        } else if self.addr > other.addr {
            Some(Ordering::Greater)
        } else {
            Some(Ordering::Equal)
        }
    }
}

impl vstd::std_specs::cmp::PartialOrdSpecImpl for ValuePair {
    open spec fn obeys_partial_cmp_spec() -> bool {
        true
    }

    open spec fn partial_cmp_spec(&self, other: &ValuePair) -> Option<Ordering> {
        if self.addr < other.addr {
            Some(Ordering::Less)
        } else if self.addr > other.addr {
            Some(Ordering::Greater)
        } else {
            Some(Ordering::Equal)
        }
    }
}

} // verus!
