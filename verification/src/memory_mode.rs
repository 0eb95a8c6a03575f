//! The ways in which the reader can access the memory of the target.
use vstd::prelude::*;

verus! {

/// How the reader accesses memory.
#[derive(Debug, Clone, Copy, PartialEq, Eq, Structural)]
pub enum MemoryAccessMode {
    /// No access mode was chosen.
    NoAccess,
    NonCacheable,
    WriteThrough,
    Normal,
    PageFault,
}

impl MemoryAccessMode {
    /// The stable integer id of the mode.
    pub open spec fn spec_id(self) -> int {
        match self {
            MemoryAccessMode::NoAccess => 0,
            MemoryAccessMode::NonCacheable => 1,
            MemoryAccessMode::WriteThrough => 2,
            MemoryAccessMode::Normal => 3,
            MemoryAccessMode::PageFault => 4,
        }
    }

    /// The mode that carries the given id, if any.
    pub open spec fn spec_from_id(id: int) -> Option<MemoryAccessMode> {
        if id == 0 {
            Some(MemoryAccessMode::NoAccess)
        } else if id == 1 {
            Some(MemoryAccessMode::NonCacheable)
        } else if id == 2 {
            Some(MemoryAccessMode::WriteThrough)
        } else if id == 3 {
            Some(MemoryAccessMode::Normal)
        } else if id == 4 {
            Some(MemoryAccessMode::PageFault)
        } else {
            None
        }
    }

    /// The mode with the given id; `None` for an id that no mode has.
    pub fn from_id(id: i32) -> (mode: Option<MemoryAccessMode>)
        ensures
            mode == MemoryAccessMode::spec_from_id(id as int),
            mode.is_some() <==> 0 <= id <= 4,
            mode.is_some() ==> mode.unwrap().spec_id() == id,
    {
        match id {
            0 => Some(MemoryAccessMode::NoAccess),
            1 => Some(MemoryAccessMode::NonCacheable),
            2 => Some(MemoryAccessMode::WriteThrough),
            3 => Some(MemoryAccessMode::Normal),
            4 => Some(MemoryAccessMode::PageFault),
            _ => None,
        }
    }

    /// The id of the mode.
    pub fn to_id(&self) -> (id: i32)
        ensures
            id == self.spec_id(),
            MemoryAccessMode::spec_from_id(id as int) == Some(*self),
    {
        match self {
            MemoryAccessMode::NoAccess => 0,
            MemoryAccessMode::NonCacheable => 1,
            MemoryAccessMode::WriteThrough => 2,
            MemoryAccessMode::Normal => 3,
            MemoryAccessMode::PageFault => 4,
        }
    }
}

} // verus!
