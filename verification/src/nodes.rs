//! The nodes of the graph.
use vstd::prelude::*;

use crate::force_dirty::{ForceDirtyHistory, ForceDirtyView};
use crate::value::{DiceKey, DiceValidValue, PagableNodeValue, TrackedInvalidationPaths};
use crate::versions::{begins_run, VersionNumber, VersionRange, VersionRanges};

verus! {

/// A node with a computed value.
#[derive(Debug, PartialEq, Eq)]
pub struct OccupiedGraphNode {
    pub value: PagableNodeValue,
    /// The keys that the computation read, in the order in which it read them.
    pub deps: Vec<DiceKey>,
    /// The versions at which the value is known to hold.
    pub verified: VersionRanges,
    pub dirtied: ForceDirtyHistory,
    pub paths: TrackedInvalidationPaths,
}

/// A node whose value comes from outside: each value with the first version that it
/// holds at, oldest first. A value holds until the next one begins.
#[derive(Debug, PartialEq, Eq)]
pub struct InjectedGraphNode {
    pub values: Vec<(VersionNumber, DiceValidValue)>,
}

/// A node without a value: it was forced dirty before anything was computed for it, or its
/// value did not go into the snapshot that it came from. In that case what its computation read
/// is still known.
#[derive(Debug, PartialEq, Eq)]
pub struct VacantGraphNode {
    pub dirtied: ForceDirtyHistory,
    pub deps: Vec<DiceKey>,
}

/// A node of the graph.
#[derive(Debug, PartialEq, Eq)]
pub enum VersionedGraphNode {
    Occupied(OccupiedGraphNode),
    Injected(InjectedGraphNode),
    Vacant(VacantGraphNode),
}

/// What a node holds.
#[verifier::ext_equal]
pub enum NodeView {
    Occupied {
        value: PagableNodeValue,
        deps: Seq<DiceKey>,
        verified: Set<int>,
        dirtied: ForceDirtyView,
        paths: TrackedInvalidationPaths,
    },
    Injected { values: Seq<(VersionNumber, DiceValidValue)> },
    Vacant { dirtied: ForceDirtyView, deps: Seq<DiceKey> },
}

/// The ways in which a node takes part in paging.
pub enum Presence {
    /// Its value is in memory.
    Resident,
    /// Its value is only in the store.
    PagedOut,
    /// Its value is in memory and may be paged out.
    Candidate,
}

impl View for VersionedGraphNode {
    type V = NodeView;

    open spec fn view(&self) -> NodeView {
        match self {
            VersionedGraphNode::Occupied(occ) => NodeView::Occupied {
                value: occ.value,
                deps: occ.deps@,
                verified: occ.verified.versions(),
                dirtied: occ.dirtied@,
                paths: occ.paths,
            },
            VersionedGraphNode::Injected(inj) => NodeView::Injected { values: inj.values@ },
            VersionedGraphNode::Vacant(vac) => NodeView::Vacant {
                dirtied: vac.dirtied@,
                deps: vac.deps@,
            },
        }
    }
}

/// Whether the values of an injected node begin one after the other.
pub open spec fn values_ascend(values: Seq<(VersionNumber, DiceValidValue)>) -> bool {
    forall|i: int, j: int|
        #![trigger values[i], values[j]]
        0 <= i < j < values.len() ==> values[i].0.number < values[j].0.number
}

/// Which of the values of an injected node holds at version `v`: the last one that
/// begins no later.
pub open spec fn injected_at(values: Seq<(VersionNumber, DiceValidValue)>, v: int) -> Option<
    (VersionNumber, DiceValidValue),
>
    decreases values.len(),
{
    if values.len() == 0 {
        None
    } else if values.last().0.number <= v {
        Some(values.last())
    } else {
        injected_at(values.drop_last(), v)
    }
}

/// The values of an injected node after `value` was set from version `v` on.
pub open spec fn injected_from(
    values: Seq<(VersionNumber, DiceValidValue)>,
    v: VersionNumber,
    value: DiceValidValue,
) -> Seq<(VersionNumber, DiceValidValue)>
    decreases values.len(),
{
    if values.len() > 0 && values.last().0.number >= v.number {
        injected_from(values.drop_last(), v, value)
    } else {
        values.push((v, value))
    }
}

/// Where the last unbroken run of versions of a set begins; 0 if it holds none.
pub open spec fn last_run(verified: Set<int>) -> int {
    if exists|b: int| begins_run(verified, b) {
        choose|b: int| #[trigger]
            begins_run(verified, b) && forall|c: int| #[trigger]
                begins_run(verified, c) ==> c <= b
    } else {
        0
    }
}

/// The value at a version is one of the values, the `i`-th, just where that one
/// holds.
proof fn lemma_injected_at(values: Seq<(VersionNumber, DiceValidValue)>, i: int, v: int)
    requires
        values_ascend(values),
        0 <= i < values.len(),
    ensures
        (values[i].0.number <= v && (i + 1 < values.len() ==> v < values[i + 1].0.number)) <==> (
        injected_at(values, v) == Some(values[i])),
    decreases values.len(),
{
    let n = values.len() - 1;
    if values.last().0.number <= v {
        if i < n {
            assert(values[i].0.number < values[n].0.number);
            if i + 1 < n {
                assert(values[i + 1].0.number < values[n].0.number);
            }
        }
    } else if i < n {
        let front = values.drop_last();
        assert(values_ascend(front)) by {
            assert forall|a: int, b: int|
                #![trigger front[a], front[b]]
                0 <= a < b < front.len() implies front[a].0.number < front[b].0.number by {
                assert(values[a].0.number < values[b].0.number);
            }
        }
        lemma_injected_at(front, i, v);
        assert(front[i] == values[i]);
        if i + 1 < front.len() {
            assert(front[i + 1] == values[i + 1]);
        }
    } else {
        lemma_injected_at_is_early(values.drop_last(), v);
        lemma_injected_member(values.drop_last(), v);
        if injected_at(values, v) == Some(values[n]) {
            let front = values.drop_last();
            let j = choose|j: int| 0 <= j < front.len() && injected_at(front, v) == Some(front[j]);
            assert(values[j].0.number < values[n].0.number);
        }
    }
}

/// The value at a version begins no later than it.
proof fn lemma_injected_at_is_early(values: Seq<(VersionNumber, DiceValidValue)>, v: int)
    ensures
        injected_at(values, v) matches Some(x) ==> x.0.number <= v,
    decreases values.len(),
{
    if values.len() > 0 && values.last().0.number > v {
        lemma_injected_at_is_early(values.drop_last(), v);
    }
}

/// The value at a version is one of the values.
proof fn lemma_injected_member(values: Seq<(VersionNumber, DiceValidValue)>, v: int)
    ensures
        injected_at(values, v) is Some ==> exists|j: int|
            0 <= j < values.len() && injected_at(values, v) == Some(#[trigger] values[j]),
    decreases values.len(),
{
    if values.len() > 0 {
        if values.last().0.number > v {
            let front = values.drop_last();
            lemma_injected_member(front, v);
            if injected_at(values, v) is Some {
                let j = choose|j: int|
                    0 <= j < front.len() && injected_at(front, v) == Some(#[trigger] front[j]);
                assert(injected_at(values, v) == Some(values[j]));
            }
        } else {
            assert(injected_at(values, v) == Some(values[values.len() - 1]));
        }
    }
}

/// Values that are all later than `v` leave it without one.
proof fn lemma_injected_none(values: Seq<(VersionNumber, DiceValidValue)>, v: int)
    requires
        forall|j: int| 0 <= j < values.len() ==> v < (#[trigger] values[j]).0.number,
    ensures
        injected_at(values, v) is None,
{
    lemma_injected_at_is_early(values, v);
    lemma_injected_member(values, v);
}

/// The value that was set last is the last one.
pub proof fn lemma_last_injected(
    values: Seq<(VersionNumber, DiceValidValue)>,
    v: VersionNumber,
    value: DiceValidValue,
)
    ensures
        injected_from(values, v, value).len() > 0,
        injected_from(values, v, value).last() == (v, value),
    decreases values.len(),
{
    if values.len() > 0 && values.last().0.number >= v.number {
        lemma_last_injected(values.drop_last(), v, value);
    }
}

impl NodeView {
    /// The keys that the node's computation read.
    pub open spec fn deps(self) -> Seq<DiceKey> {
        match self {
            NodeView::Occupied { deps, .. } => deps,
            NodeView::Vacant { deps, .. } => deps,
            NodeView::Injected { .. } => Seq::empty(),
        }
    }

    /// Whether the node takes part in paging in the given way.
    pub open spec fn is(self, presence: Presence) -> bool {
        match self {
            NodeView::Occupied { value, .. } => match presence {
                Presence::Resident => value.hydrated() is Some,
                Presence::PagedOut => value.stored() is Some,
                Presence::Candidate => value is Fresh,
            },
            _ => false,
        }
    }

    /// The versions at which the node was forced dirty.
    pub open spec fn history(self) -> ForceDirtyView {
        match self {
            NodeView::Occupied { dirtied, .. } => dirtied,
            NodeView::Vacant { dirtied, .. } => dirtied,
            NodeView::Injected { .. } => ForceDirtyView::clean(),
        }
    }

    /// Whether the value that the node has at version `v` also holds at version `w`.
    pub open spec fn holds_alike(self, v: int, w: int) -> bool {
        match self {
            NodeView::Occupied { verified, .. } => verified.contains(v) && verified.contains(w),
            NodeView::Injected { values } => injected_at(values, v) is Some && injected_at(
                values,
                w,
            ) == injected_at(values, v),
            NodeView::Vacant { .. } => false,
        }
    }

    /// The node once nothing computed for it holds from version `v` on.
    pub open spec fn dirty_from(self, v: int) -> NodeView {
        match self {
            NodeView::Occupied { value, deps, verified, dirtied, paths } => NodeView::Occupied {
                value,
                deps,
                verified: Set::new(|w: int| verified.contains(w) && w < v),
                dirtied,
                paths,
            },
            _ => self,
        }
    }

    /// The node with another thing kept of its value.
    pub open spec fn keeping(self, kept: PagableNodeValue) -> NodeView {
        match self {
            NodeView::Occupied { value, deps, verified, dirtied, paths } => NodeView::Occupied {
                value: kept,
                deps,
                verified,
                dirtied,
                paths,
            },
            _ => self,
        }
    }
}

impl OccupiedGraphNode {
    /// Where the last unbroken run of versions begins that the value holds at: the
    /// older, the colder the value.
    pub fn last_verified_begin(&self) -> (r: VersionNumber)
        requires
            self.verified.wf(),
        ensures
            r.number == last_run(self.verified.versions()),
    {
        let last: Option<VersionNumber> = self.verified.last_begin();
        proof {
            let s = self.verified.versions();
            match last {
                Some(b) => {
                    assert(begins_run(s, b.number as int));
                    let c = last_run(s);
                    assert(begins_run(s, c) && c == b.number);
                },
                None => {
                    assert forall|b: int| !begins_run(s, b) by {
                        assert(!s.contains(b));
                    }
                },
            }
        }
        match last {
            Some(b) => b,
            None => VersionNumber { number: 0 },
        }
    }
}

impl InjectedGraphNode {
    /// Whether there is a value and the values begin one after the other.
    pub fn is_in_order(&self) -> (r: bool)
        ensures
            r == (self.values@.len() > 0 && values_ascend(self.values@)),
    {
        let ghost all = self.values@;
        if self.values.len() == 0 {
            return false;
        }
        let mut i: usize = 1;
        while i < self.values.len()
            invariant
                all == self.values@,
                1 <= i <= all.len(),
                values_ascend(all.take(i as int)),
            decreases all.len() - i,
        {
            if self.values[i - 1].0.number >= self.values[i].0.number {
                assert(all[i - 1].0.number >= all[i as int].0.number);
                return false;
            }
            proof {
                let front = all.take(i as int);
                let longer = all.take(i + 1);
                assert forall|a: int, b: int|
                    #![trigger longer[a], longer[b]]
                    0 <= a < b < longer.len() implies longer[a].0.number < longer[b].0.number by {
                    if b < i {
                        assert(front[a].0.number < front[b].0.number);
                    } else if a < i - 1 {
                        assert(front[a].0.number < front[i - 1].0.number);
                    }
                }
            }
            i += 1;
        }
        assert(all.take(all.len() as int) =~= all);
        true
    }

    /// The last value and the version that it holds from.
    pub fn latest_for_persist(&self) -> (r: (VersionNumber, DiceValidValue))
        requires
            self.values@.len() > 0,
        ensures
            r == self.values@.last(),
    {
        self.values[self.values.len() - 1]
    }

    /// The value at version `v` and the versions that it holds at, if there is one.
    pub fn at_version(&self, v: VersionNumber) -> (r: Option<(DiceValidValue, VersionRange)>)
        requires
            values_ascend(self.values@),
        ensures
            match r {
                Some((value, range)) => (injected_at(self.values@, v.number as int) matches Some(x)
                    && x.1 == value) && range.nonempty() && forall|w: int| #[trigger]
                    range.has(w) <==> injected_at(self.values@, w) == injected_at(
                        self.values@,
                        v.number as int,
                    ),
                None => injected_at(self.values@, v.number as int) is None,
            },
    {
        let mut i: usize = self.values.len();
        let mut end: Option<VersionNumber> = None;
        let ghost all = self.values@;
        while i > 0
            invariant
                all == self.values@,
                values_ascend(all),
                i <= all.len(),
                forall|j: int| i <= j < all.len() ==> v.number < (#[trigger] all[j]).0.number,
                end == (if i < all.len() {
                    Some(all[i as int].0)
                } else {
                    None
                }),
            decreases i,
        {
            let entry: (VersionNumber, DiceValidValue) = self.values[i - 1];
            if entry.0.number <= v.number {
                let range: VersionRange = VersionRange { begin: entry.0, end };
                proof {
                    let k = i - 1;
                    lemma_injected_at(all, k, v.number as int);
                    assert forall|w: int| #[trigger] range.has(w) <==> injected_at(all, w)
                        == injected_at(all, v.number as int) by {
                        lemma_injected_at(all, k, w);
                    }
                }
                return Some((entry.1, range));
            }
            end = Some(entry.0);
            i -= 1;
        }
        proof {
            lemma_injected_none(all, v.number as int);
        }
        None
    }

    /// Sets the value from version `v` on.
    pub fn on_injected(&mut self, v: VersionNumber, value: DiceValidValue)
        requires
            values_ascend(old(self).values@),
        ensures
            final(self).values@ == injected_from(old(self).values@, v, value),
            values_ascend(final(self).values@),
    {
        let ghost before = self.values@;
        let ghost target = injected_from(before, v, value);
        let mut stop: bool = false;
        while !stop
            invariant
                values_ascend(self.values@),
                injected_from(self.values@, v, value) == target,
                stop ==> (self.values@.len() == 0 || self.values@.last().0.number < v.number),
            decreases self.values@.len(), (if stop { 0int } else { 1int }),
        {
            let n: usize = self.values.len();
            if n > 0 && self.values[n - 1].0.number >= v.number {
                let ghost was = self.values@;
                let _ = self.values.pop();
                assert(self.values@ =~= was.drop_last());
                assert(values_ascend(self.values@)) by {
                    assert forall|a: int, b: int|
                        #![trigger self.values@[a], self.values@[b]]
                        0 <= a < b < self.values@.len() implies self.values@[a].0.number
                        < self.values@[b].0.number by {
                        assert(was[a].0.number < was[b].0.number);
                    }
                }
            } else {
                stop = true;
            }
        }
        let ghost was = self.values@;
        self.values.push((v, value));
        assert(values_ascend(self.values@)) by {
            assert forall|a: int, b: int|
                #![trigger self.values@[a], self.values@[b]]
                0 <= a < b < self.values@.len() implies self.values@[a].0.number
                < self.values@[b].0.number by {
                if b < was.len() {
                    assert(was[a].0.number < was[b].0.number);
                } else if a < was.len() - 1 {
                    assert(was[a].0.number < was[was.len() - 1].0.number);
                }
            }
        }
    }
}

impl VersionedGraphNode {
    /// Whether the node is in order: its versions are in canonical form, and an
    /// injected one has a value and its values begin one after the other.
    pub open spec fn wf(self) -> bool {
        match self {
            VersionedGraphNode::Occupied(occ) => occ.verified.wf(),
            VersionedGraphNode::Injected(inj) => inj.values@.len() > 0 && values_ascend(
                inj.values@,
            ),
            VersionedGraphNode::Vacant(_) => true,
        }
    }

    /// Whether the node is in order. One that was read back may not be.
    pub fn is_in_order(&self) -> (r: bool)
        ensures
            r == self.wf(),
    {
        match self {
            VersionedGraphNode::Occupied(occ) => occ.verified.is_canonical(),
            VersionedGraphNode::Injected(inj) => inj.is_in_order(),
            VersionedGraphNode::Vacant(_) => true,
        }
    }

    /// The keys that the node's computation read; none for an injected node.
    pub fn deps(&self) -> (r: Option<&Vec<DiceKey>>)
        ensures
            match r {
                Some(deps) => deps@ == self@.deps(),
                None => self@.deps() == Seq::<DiceKey>::empty(),
            },
    {
        match self {
            VersionedGraphNode::Occupied(occ) => Some(&occ.deps),
            VersionedGraphNode::Vacant(vac) => Some(&vac.deps),
            VersionedGraphNode::Injected(_) => None,
        }
    }

    /// What the node keeps of a computed value.
    pub fn kept(&self) -> (r: Option<PagableNodeValue>)
        ensures
            r == (match self@ {
                NodeView::Occupied { value, .. } => Some(value),
                _ => None,
            }),
    {
        match self {
            VersionedGraphNode::Occupied(occ) => Some(occ.value),
            _ => None,
        }
    }

    /// The node once nothing computed for it holds from version `v` on.
    pub fn dirtied_from(self, v: VersionNumber) -> (r: VersionedGraphNode)
        requires
            self.wf(),
        ensures
            r.wf(),
            r@ == self@.dirty_from(v.number as int),
    {
        match self {
            VersionedGraphNode::Occupied(occ) => {
                let range: VersionRange = VersionRange::bounded(VersionNumber { number: 0 }, v);
                let verified: VersionRanges = occ.verified.intersect_range(&range);
                let ghost was = occ.verified;
                let r: VersionedGraphNode = VersionedGraphNode::Occupied(
                    OccupiedGraphNode {
                        value: occ.value,
                        deps: occ.deps,
                        verified,
                        dirtied: occ.dirtied,
                        paths: occ.paths,
                    },
                );
                proof {
                    let cut = Set::new(|w: int| was.versions().contains(w) && w < v.number);
                    assert forall|w: int| #[trigger]
                        verified.versions().contains(w) <==> cut.contains(w) by {
                        assert(verified.has(w) <==> was.has(w) && range.has(w));
                        if was.has(w) {
                            let i = choose|i: int|
                                0 <= i < was.ranges@.len() && #[trigger] was.ranges@[i].has(w);
                            assert(0 <= was.ranges@[i].begin.number <= w);
                        }
                    }
                    assert(verified.versions() =~= cut);
                }
                r
            },
            other => other,
        }
    }

    /// The node with another thing kept of its value.
    pub fn with_kept(self, kept: PagableNodeValue) -> (r: VersionedGraphNode)
        requires
            self.wf(),
        ensures
            r.wf(),
            r@ == self@.keeping(kept),
    {
        match self {
            VersionedGraphNode::Occupied(occ) => VersionedGraphNode::Occupied(
                OccupiedGraphNode {
                    value: kept,
                    deps: occ.deps,
                    verified: occ.verified,
                    dirtied: occ.dirtied,
                    paths: occ.paths,
                },
            ),
            other => other,
        }
    }
}

/// Setting a leaf from a version on leaves its values in order, each with a version of its own:
/// before that version what was, from it on the new one.
pub proof fn law_leaf_values_stay_in_order(
    values: Seq<(VersionNumber, DiceValidValue)>,
    v: VersionNumber,
    value: DiceValidValue,
    w: int,
)
    requires
        values_ascend(values),
    ensures
        values_ascend(injected_from(values, v, value)),
        injected_from(values, v, value).len() > 0,
        injected_from(values, v, value).last() == (v, value),
        v.number <= w ==> injected_at(injected_from(values, v, value), w) == Some((v, value)),
        w < v.number ==> injected_at(injected_from(values, v, value), w) == injected_at(values, w),
    decreases values.len(),
{
    if values.len() > 0 && values.last().0.number >= v.number {
        law_leaf_values_stay_in_order(values.drop_last(), v, value, w);
    } else {
        let now = values.push((v, value));
        assert(now.drop_last() =~= values);
        assert forall|i: int, j: int|
            #![trigger now[i], now[j]]
            0 <= i < j < now.len() implies now[i].0.number < now[j].0.number by {
            assert(values.len() > 0 ==> values.last() == values[values.len() - 1]);
            if j < values.len() {
                assert(values[i].0.number < values[j].0.number);
            } else if i < values.len() - 1 {
                assert(values[i].0.number < values[values.len() - 1].0.number);
            }
        }
    }
}

} // verus!
