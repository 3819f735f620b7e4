//! The versions at which a node was forced dirty.
//!
//! Each recorded version is a boundary: what was verified on one side of it
//! says nothing about the other side.
use vstd::prelude::*;

use crate::versions::{VersionNumber, VersionRange};

verus! {

/// How much the source of an invalidation matters when it is reported.
#[derive(Debug, Clone, Copy, PartialEq, Eq, Structural)]
pub enum InvalidationSourcePriority {
    Ignored,
    Normal,
    High,
}

/// The versions at which a node was forced dirty, in the order in which they
/// were recorded, and the priority of the last of them.
#[derive(Debug, PartialEq, Eq)]
pub struct ForceDirtyHistory {
    pub versions: Vec<VersionNumber>,
    pub priority: InvalidationSourcePriority,
}

/// What a force-dirty history holds.
#[verifier::ext_equal]
pub struct ForceDirtyView {
    pub versions: Seq<VersionNumber>,
    pub priority: InvalidationSourcePriority,
}

impl View for ForceDirtyHistory {
    type V = ForceDirtyView;

    open spec fn view(&self) -> ForceDirtyView {
        ForceDirtyView { versions: self.versions@, priority: self.priority }
    }
}

impl ForceDirtyView {
    /// A history without a boundary.
    pub open spec fn clean() -> ForceDirtyView {
        ForceDirtyView { versions: Seq::empty(), priority: InvalidationSourcePriority::Normal }
    }

    /// Whether one of the boundaries lies after `a` and no later than `b`, or the
    /// other way round.
    pub open spec fn separates(self, a: int, b: int) -> bool {
        exists|i: int|
            0 <= i < self.versions.len() && {
                let m = (#[trigger] self.versions[i]).number as int;
                a < m <= b || b < m <= a
            }
    }

    /// The history after one more version was forced dirty.
    pub open spec fn with(self, v: VersionNumber, priority: InvalidationSourcePriority) -> Self {
        if self.versions.contains(v) {
            self
        } else {
            ForceDirtyView { versions: self.versions.push(v), priority }
        }
    }

    /// The history that the given parts stand for: without a version it is the
    /// clean one, whatever the priority.
    pub open spec fn of_parts(
        versions: Seq<VersionNumber>,
        priority: InvalidationSourcePriority,
    ) -> Self {
        if versions.len() == 0 {
            ForceDirtyView::clean()
        } else {
            ForceDirtyView { versions, priority }
        }
    }
}

impl ForceDirtyHistory {
    /// A history without a boundary.
    pub fn new() -> (r: ForceDirtyHistory)
        ensures
            r@ == ForceDirtyView::clean(),
    {
        ForceDirtyHistory { versions: Vec::new(), priority: InvalidationSourcePriority::Normal }
    }

    /// A copy.
    pub fn duplicate(&self) -> (r: ForceDirtyHistory)
        ensures
            r@ == self@,
    {
        let mut out: Vec<VersionNumber> = Vec::new();
        let mut i: usize = 0;
        while i < self.versions.len()
            invariant
                i <= self.versions@.len(),
                out@ == self.versions@.take(i as int),
            decreases self.versions@.len() - i,
        {
            out.push(self.versions[i]);
            assert(self.versions@.take(i as int).push(self.versions@[i as int])
                =~= self.versions@.take(i + 1));
            i += 1;
        }
        assert(self.versions@.take(self.versions@.len() as int) =~= self.versions@);
        ForceDirtyHistory { versions: out, priority: self.priority }
    }

    /// Whether the node is recorded as dirty from `v` on.
    pub fn is_recorded(&self, v: VersionNumber) -> (r: bool)
        ensures
            r == self@.versions.contains(v),
    {
        let mut i: usize = 0;
        while i < self.versions.len()
            invariant
                i <= self.versions@.len(),
                forall|j: int| 0 <= j < i ==> self.versions@[j] != v,
            decreases self.versions@.len() - i,
        {
            if self.versions[i].number == v.number {
                assert(self.versions@[i as int] == v);
                return true;
            }
            i += 1;
        }
        false
    }

    /// Records that the node is dirty from `v` on, unless that is recorded
    /// already. Returns whether the history changed.
    pub fn force_dirty(&mut self, v: VersionNumber, priority: InvalidationSourcePriority) -> (r:
        bool)
        ensures
            r == !old(self)@.versions.contains(v),
            final(self)@ == old(self)@.with(v, priority),
    {
        if self.is_recorded(v) {
            return false;
        }
        self.versions.push(v);
        self.priority = priority;
        true
    }

    /// The versions that no boundary separates from `v`.
    pub fn restricted_range(&self, v: VersionNumber) -> (r: VersionRange)
        ensures
            r.nonempty(),
            forall|q: int| 0 <= q ==> (#[trigger] r.has(q) <==> !self@.separates(v.number as int, q)),
    {
        let mut begin: u64 = 0;
        let mut end: Option<VersionNumber> = None;
        let mut i: usize = 0;
        while i < self.versions.len()
            invariant
                i <= self.versions@.len(),
                begin <= v.number,
                end matches Some(e) ==> v.number < e.number,
                begin == 0 || exists|j: int| 0 <= j < i && (#[trigger] self.versions@[j]).number
                    == begin,
                end matches Some(e) ==> exists|j: int|
                    0 <= j < i && #[trigger] self.versions@[j] == e,
                forall|j: int|
                    #![trigger self.versions@[j]]
                    0 <= j < i ==> (self.versions@[j].number <= begin || (end matches Some(e)
                        && e.number <= self.versions@[j].number)),
            decreases self.versions@.len() - i,
        {
            let m: VersionNumber = self.versions[i];
            assert(self.versions@[i as int] == m);
            if m.number <= v.number {
                if begin < m.number {
                    begin = m.number;
                }
            } else {
                match end {
                    Some(e) => {
                        if m.number < e.number {
                            end = Some(m);
                        }
                    },
                    None => {
                        end = Some(m);
                    },
                }
            }
            i += 1;
        }
        let r: VersionRange = VersionRange { begin: VersionNumber { number: begin }, end };
        proof {
            assert forall|q: int| 0 <= q implies (#[trigger] r.has(q) <==> !self@.separates(
                v.number as int,
                q,
            )) by {
                let vs = self@.versions;
                if self@.separates(v.number as int, q) {
                    let j = choose|j: int|
                        0 <= j < vs.len() && {
                            let m = (#[trigger] vs[j]).number as int;
                            v.number < m <= q || q < m <= v.number
                        };
                    assert(vs[j].number <= begin || (end matches Some(e) && e.number
                        <= vs[j].number));
                }
                if !r.has(q) {
                    if q < begin {
                        let j = choose|j: int|
                            0 <= j < vs.len() && (#[trigger] vs[j]).number == begin;
                        assert(q < vs[j].number <= v.number);
                    } else {
                        let e = end->0;
                        let j = choose|j: int| 0 <= j < vs.len() && #[trigger] vs[j] == e;
                        assert(v.number < vs[j].number <= q);
                    }
                }
            }
        }
        r
    }

    /// The recorded versions and their priority, if any version was recorded.
    pub fn parts_for_persist(&self) -> (r: Option<(&Vec<VersionNumber>, InvalidationSourcePriority)>)
        ensures
            match r {
                Some((versions, priority)) => self@.versions.len() > 0 && versions@
                    == self@.versions && priority == self@.priority,
                None => self@.versions.len() == 0,
            },
    {
        if self.versions.len() == 0 {
            None
        } else {
            Some((&self.versions, self.priority))
        }
    }

    /// The history with exactly these versions and this priority.
    pub fn from_persisted_parts(
        versions: Vec<VersionNumber>,
        priority: InvalidationSourcePriority,
    ) -> (r: ForceDirtyHistory)
        ensures
            r@ == ForceDirtyView::of_parts(versions@, priority),
    {
        if versions.len() == 0 {
            ForceDirtyHistory::new()
        } else {
            ForceDirtyHistory { versions, priority }
        }
    }
}

/// A boundary, once recorded, stays: whatever is forced dirty later, the versions
/// on its two sides remain separated.
pub proof fn law_a_boundary_is_never_forgotten(
    history: ForceDirtyView,
    v: VersionNumber,
    priority: InvalidationSourcePriority,
    a: int,
    b: int,
)
    requires
        history.separates(a, b),
    ensures
        history.with(v, priority).separates(a, b),
{
    let i = choose|i: int|
        0 <= i < history.versions.len() && {
            let m = (#[trigger] history.versions[i]).number as int;
            a < m <= b || b < m <= a
        };
    assert(history.with(v, priority).versions[i] == history.versions[i]);
}

/// Forcing a node dirty at `v` separates every earlier version from `v` and from
/// all that come after it.
pub proof fn law_forcing_dirty_separates(
    history: ForceDirtyView,
    v: VersionNumber,
    priority: InvalidationSourcePriority,
    before: int,
    after: int,
)
    requires
        before < v.number <= after,
    ensures
        history.with(v, priority).separates(before, after),
{
    let new = history.with(v, priority);
    if history.versions.contains(v) {
        let i = choose|i: int| 0 <= i < history.versions.len() && history.versions[i] == v;
        assert(new.versions[i] == v);
    } else {
        assert(new.versions[new.versions.len() - 1] == v);
    }
}

/// Versions that have every boundary on the same side are not separated, and what separates one
/// way separates the other.
pub proof fn law_one_side_is_not_separated(history: ForceDirtyView, a: int, b: int)
    ensures
        history.separates(a, b) == history.separates(b, a),
        (forall|i: int|
            #![trigger history.versions[i]]
            0 <= i < history.versions.len() ==> (history.versions[i].number <= a
                && history.versions[i].number <= b) || (a < history.versions[i].number && b
                < history.versions[i].number)) ==> !history.separates(a, b),
        !history.separates(a, a),
{
    if history.separates(a, b) {
        let i = choose|i: int|
            0 <= i < history.versions.len() && {
                let m = (#[trigger] history.versions[i]).number as int;
                a < m <= b || b < m <= a
            };
        assert(history.versions[i].number <= a || a < history.versions[i].number);
    }
}

/// One more version is recorded behind those that were, with its own priority; one that is
/// recorded already changes nothing.
pub proof fn law_a_version_is_recorded_once(
    history: ForceDirtyView,
    v: VersionNumber,
    priority: InvalidationSourcePriority,
)
    ensures
        !history.versions.contains(v) ==> history.with(v, priority).versions
            == history.versions.push(v) && history.with(v, priority).priority == priority,
        history.versions.contains(v) ==> history.with(v, priority) == history,
        history.with(v, priority).with(v, priority) == history.with(v, priority),
{
    let now = history.with(v, priority);
    if !history.versions.contains(v) {
        assert(now.versions[history.versions.len() as int] == v);
    }
}

} // verus!
