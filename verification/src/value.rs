//! Keys, values and what a node keeps of a value.
use vstd::prelude::*;

use crate::versions::{VersionNumber, VersionRanges};

verus! {

/// The index of a node of the graph.
#[derive(Debug, Clone, Copy, PartialEq, Eq, Structural, PartialOrd, Ord, Hash)]
pub struct DiceKey {
    pub index: u32,
}

/// Where the serialized form of a value is found in the store.
#[derive(Debug, Clone, Copy, PartialEq, Eq, Structural, Hash)]
pub struct DataKey {
    pub id: u128,
}

/// A handle to a computed value: which allocation holds it, and which of the
/// classes of equal values it is in.
#[derive(Debug, Clone, Copy, PartialEq, Eq, Structural)]
pub struct DiceValidValue {
    pub allocation: u64,
    pub class: u64,
}

impl DiceValidValue {
    /// The value of class `class` that allocation `allocation` holds.
    pub fn new(allocation: u64, class: u64) -> (r: DiceValidValue)
        ensures
            r == (DiceValidValue { allocation, class }),
    {
        DiceValidValue { allocation, class }
    }

    /// Whether both handles are to one allocation.
    pub fn ptr_eq(&self, other: &DiceValidValue) -> (r: bool)
        ensures
            r == (self.allocation == other.allocation),
    {
        self.allocation == other.allocation
    }

    /// Whether the two values are equal, wherever they are held.
    pub fn equality(&self, other: &DiceValidValue) -> (r: bool)
        ensures
            r == (self.class == other.class),
    {
        self.class == other.class
    }
}

/// The versions at which the inputs that dirtied a value last changed, by the
/// priority of the change.
#[derive(Debug, Clone, Copy, PartialEq, Eq, Structural)]
pub struct TrackedInvalidationPaths {
    pub normal: Option<VersionNumber>,
    pub high: Option<VersionNumber>,
}

impl TrackedInvalidationPaths {
    /// Nothing dirtied the value.
    pub fn clean() -> (r: TrackedInvalidationPaths)
        ensures
            r == (TrackedInvalidationPaths { normal: None, high: None }),
    {
        TrackedInvalidationPaths { normal: None, high: None }
    }
}

/// A value with the versions that it is known to hold at.
#[derive(Debug, PartialEq, Eq)]
pub struct DiceComputedValue {
    pub value: DiceValidValue,
    pub valid: VersionRanges,
    pub paths: TrackedInvalidationPaths,
}

/// What a node keeps of its value: the value itself, or only where to find its
/// serialized form. A value goes out at most once, so a resident one also tells
/// whether it may still go.
#[derive(Debug, Clone, Copy, PartialEq, Eq, Structural)]
pub enum PagableNodeValue {
    /// Resident, and never paged out.
    Fresh(DiceValidValue),
    /// Resident after having been paged out.
    Recomputed(DiceValidValue),
    /// Resident, and known not to be serializable.
    NonPageable(DiceValidValue),
    /// Only in the store.
    PagedOut(DataKey),
}

impl PagableNodeValue {
    /// The value, if it is resident.
    pub open spec fn hydrated(self) -> Option<DiceValidValue> {
        match self {
            PagableNodeValue::Fresh(v) => Some(v),
            PagableNodeValue::Recomputed(v) => Some(v),
            PagableNodeValue::NonPageable(v) => Some(v),
            PagableNodeValue::PagedOut(_) => None,
        }
    }

    /// Where the value is stored, if it is not resident.
    pub open spec fn stored(self) -> Option<DataKey> {
        match self {
            PagableNodeValue::PagedOut(k) => Some(k),
            _ => None,
        }
    }

    /// What is kept once `new` replaces the value: whoever was out once, or cannot
    /// go, is not offered again.
    pub open spec fn recomputed(self, new: DiceValidValue) -> PagableNodeValue {
        match self {
            PagableNodeValue::Fresh(_) => PagableNodeValue::Fresh(new),
            PagableNodeValue::Recomputed(_) => PagableNodeValue::Recomputed(new),
            PagableNodeValue::NonPageable(_) => PagableNodeValue::NonPageable(new),
            PagableNodeValue::PagedOut(_) => PagableNodeValue::Recomputed(new),
        }
    }

    /// What is kept once the value is known not to be serializable.
    pub open spec fn non_pageable(self) -> PagableNodeValue {
        match self.hydrated() {
            Some(v) => PagableNodeValue::NonPageable(v),
            None => self,
        }
    }

    /// What is kept once `value` was read back from the store.
    pub open spec fn paged_in(self, value: DiceValidValue) -> PagableNodeValue {
        match self {
            PagableNodeValue::PagedOut(_) => PagableNodeValue::Recomputed(value),
            _ => self,
        }
    }

    /// What is kept once `serialized` went to the store under `data_key`: a node that
    /// has no value in memory, or holds another allocation by now, keeps what it has.
    pub open spec fn evicted(
        self,
        data_key: DataKey,
        serialized: DiceValidValue,
    ) -> PagableNodeValue {
        match self.hydrated() {
            Some(v) => if v.allocation == serialized.allocation {
                PagableNodeValue::PagedOut(data_key)
            } else {
                self
            },
            None => self,
        }
    }

    /// The value, if it is resident.
    pub fn as_hydrated(&self) -> (r: Option<DiceValidValue>)
        ensures
            r == self.hydrated(),
    {
        match *self {
            PagableNodeValue::Fresh(v) => Some(v),
            PagableNodeValue::Recomputed(v) => Some(v),
            PagableNodeValue::NonPageable(v) => Some(v),
            PagableNodeValue::PagedOut(_) => None,
        }
    }

    /// Where the value is stored, if it is not resident.
    pub fn data_key(&self) -> (r: Option<DataKey>)
        ensures
            r == self.stored(),
    {
        match *self {
            PagableNodeValue::PagedOut(k) => Some(k),
            _ => None,
        }
    }

    /// What is kept once `new` replaces the value.
    pub fn after_recompute(&self, new: DiceValidValue) -> (r: PagableNodeValue)
        ensures
            r == self.recomputed(new),
    {
        match *self {
            PagableNodeValue::Fresh(_) => PagableNodeValue::Fresh(new),
            PagableNodeValue::NonPageable(_) => PagableNodeValue::NonPageable(new),
            _ => PagableNodeValue::Recomputed(new),
        }
    }

    /// What is kept once the value is known not to be serializable.
    pub fn mark_non_pageable(&self) -> (r: PagableNodeValue)
        ensures
            r == self.non_pageable(),
    {
        match self.as_hydrated() {
            Some(v) => PagableNodeValue::NonPageable(v),
            None => *self,
        }
    }

    /// What is kept once `value` was read back from the store.
    pub fn rehydrate(&self, value: DiceValidValue) -> (r: PagableNodeValue)
        ensures
            r == self.paged_in(value),
    {
        match *self {
            PagableNodeValue::PagedOut(_) => PagableNodeValue::Recomputed(value),
            _ => *self,
        }
    }

    /// What is kept once `serialized` went to the store under `data_key`.
    pub fn evict(&self, data_key: DataKey, serialized: &DiceValidValue) -> (r: PagableNodeValue)
        ensures
            r == self.evicted(data_key, *serialized),
    {
        match self.as_hydrated() {
            Some(current) => if current.ptr_eq(serialized) {
                PagableNodeValue::PagedOut(data_key)
            } else {
                *self
            },
            None => *self,
        }
    }
}

/// A node holds its value or where to find it, never both and never neither.
pub proof fn law_value_is_resident_or_stored(kept: PagableNodeValue)
    ensures
        kept.hydrated() is Some <==> kept.stored() is None,
{
}

/// A value that was paged out is never offered for it again, however often it is
/// read back, recomputed, found not to be serializable or evicted after that; nor is
/// one that was found not to be serializable.
pub proof fn law_no_way_back_to_fresh(
    kept: PagableNodeValue,
    value: DiceValidValue,
    data_key: DataKey,
)
    requires
        !(kept is Fresh),
    ensures
        !(kept.recomputed(value) is Fresh),
        !(kept.non_pageable() is Fresh),
        !(kept.paged_in(value) is Fresh),
        !(kept.evicted(data_key, value) is Fresh),
{
}

/// Eviction never pairs a node with the bytes of another allocation: a node that
/// goes out held exactly the allocation that was serialized.
pub proof fn law_eviction_is_checked(
    kept: PagableNodeValue,
    data_key: DataKey,
    serialized: DiceValidValue,
)
    ensures
        kept.evicted(data_key, serialized) != kept ==> kept.hydrated() is Some
            && kept.hydrated()->0.allocation == serialized.allocation && kept.evicted(
            data_key,
            serialized,
        ) == PagableNodeValue::PagedOut(data_key),
{
}

/// A new value takes the place of the old one and is in memory: marked as computed anew where the
/// old one was out, and as the old one where it was not. A value that is read back is in memory
/// where it was out, also marked as computed anew; one that is in memory stays. What cannot be
/// serialized stays in memory.
pub proof fn law_a_new_value_is_in_memory(kept: PagableNodeValue, value: DiceValidValue)
    ensures
        kept.recomputed(value).hydrated() == Some(value),
        kept is PagedOut <==> kept.paged_in(value) != kept,
        kept is PagedOut ==> kept.recomputed(value) is Recomputed && kept.paged_in(value) is Recomputed
            && kept.paged_in(value).hydrated() == Some(value),
        kept is Fresh ==> kept.recomputed(value) is Fresh,
        kept is Recomputed ==> kept.recomputed(value) is Recomputed,
        kept is NonPageable ==> kept.recomputed(value) is NonPageable,
        kept.non_pageable().hydrated() == kept.hydrated(),
        kept.hydrated() is Some <==> kept.non_pageable() is NonPageable,
        kept.non_pageable().stored() == kept.stored(),
{
}

} // verus!
