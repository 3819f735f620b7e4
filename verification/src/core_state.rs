//! The core state: the graph, the versions, and the tasks that are being cancelled.
use std::collections::HashSet;
use vstd::prelude::*;

use crate::force_dirty::{ForceDirtyHistory, ForceDirtyView, InvalidationSourcePriority};
use crate::graph::{copy_keys, installed, invalidated, node_views, reads, VersionedGraph};
use crate::graph_types::{
    changes, computed_node, injected_values, lookup, InvalidateKind, StorageType, ValueReusable,
    VersionedGraphKey, VersionedGraphResult,
};
use crate::nodes::{injected_from, last_run, NodeView, Presence, VersionedGraphNode};
use crate::store::{
    keys_with, law_counts_fit, lemma_lists_len, lemma_pick, lemma_pick_ends, lists, within,
    PagableNodeCounts,
};
use crate::tracker::{
    active_at, is_active, total_refcount, ActiveVersion, SharedCache, TrackerView, VersionEpoch,
    VersionTracker,
};
use crate::value::{
    DataKey, DiceComputedValue, DiceKey, DiceValidValue, PagableNodeValue,
    TrackedInvalidationPaths,
};
use crate::versions::{VersionNumber, VersionRanges};

verus! {

broadcast use vstd::std_specs::hash::group_hash_axioms;

/// How a key changes.
#[derive(Debug, Clone, Copy, PartialEq, Eq, Structural)]
pub enum ChangeType {
    /// What was computed for it is of no use any more.
    Invalidate,
    /// It has the given value from now on.
    UpdateValue(DiceValidValue, StorageType),
}

impl ChangeType {
    /// The invalidation that the change amounts to.
    pub open spec fn kind(self) -> InvalidateKind {
        match self {
            ChangeType::Invalidate => InvalidateKind::ForceDirty,
            ChangeType::UpdateValue(value, storage) => InvalidateKind::Update(value, storage),
        }
    }
}

/// A task of a transaction that was cancelled.
#[derive(Debug, Clone, Copy, PartialEq, Eq, Structural)]
pub struct DiceTask {
    pub id: u64,
}

/// What was begun for a transaction that is of no use any more.
#[derive(Debug, Clone, Copy, PartialEq, Eq, Structural)]
pub struct TransactionCancelled {}

/// How many nodes there are in each state, and which.
#[derive(Debug, PartialEq, Eq)]
pub struct PagableStatusRaw {
    /// All nodes, those without a value too.
    pub total_nodes: usize,
    pub counts: PagableNodeCounts,
    pub resident: Vec<DiceKey>,
    pub paged_out: Vec<DiceKey>,
}

/// A node that may be evicted under memory pressure.
#[derive(Debug, Clone, Copy, PartialEq, Eq, Structural)]
pub struct PressureCandidate {
    pub key: DiceKey,
    pub value: DiceValidValue,
    /// The older, the colder.
    pub last_verified_begin: VersionNumber,
}

/// Some numbers about the state.
#[derive(Debug, Clone, Copy, PartialEq, Eq, Structural)]
pub struct Metrics {
    pub key_count: usize,
    pub active_transaction_count: u32,
}

/// A node and what it read.
#[derive(Debug, PartialEq, Eq)]
pub struct NodeDeps {
    pub key: DiceKey,
    pub deps: Vec<DiceKey>,
}

/// All nodes and what they read.
#[derive(Debug, PartialEq, Eq)]
pub struct VersionedGraphIntrospectable {
    pub nodes: Vec<NodeDeps>,
}

/// All active versions with how many transactions are active at each.
#[derive(Debug, PartialEq, Eq)]
pub struct VersionIntrospectable {
    pub versions: Vec<(VersionNumber, u64)>,
}

/// What of a node's value goes into a snapshot.
#[derive(Debug, Clone, Copy, PartialEq, Eq, Structural)]
pub enum PersistValueExtract {
    /// It is in the store already.
    Paged(DataKey),
    /// It is in memory.
    Hydrated(DiceValidValue),
}

/// What of a node goes into a snapshot.
#[allow(inconsistent_fields)]
#[derive(Debug, PartialEq, Eq)]
pub enum PersistNodeExtract {
    Occupied {
        key: DiceKey,
        deps: Vec<DiceKey>,
        verified_ranges: VersionRanges,
        dirtied_history: ForceDirtyHistory,
        value: PersistValueExtract,
    },
    Injected { key: DiceKey, first_valid_version: VersionNumber, value: DiceValidValue },
}

/// What an extract says.
#[allow(inconsistent_fields)]
#[verifier::ext_equal]
pub enum ExtractView {
    Occupied {
        key: DiceKey,
        deps: Seq<DiceKey>,
        verified: Set<int>,
        dirtied: ForceDirtyView,
        value: PersistValueExtract,
    },
    Injected { key: DiceKey, first_valid_version: VersionNumber, value: DiceValidValue },
}

impl View for PersistNodeExtract {
    type V = ExtractView;

    open spec fn view(&self) -> ExtractView {
        match self {
            PersistNodeExtract::Occupied {
                key,
                deps,
                verified_ranges,
                dirtied_history,
                value,
            } => ExtractView::Occupied {
                key: *key,
                deps: deps@,
                verified: verified_ranges.versions(),
                dirtied: dirtied_history@,
                value: *value,
            },
            PersistNodeExtract::Injected { key, first_valid_version, value } =>
                ExtractView::Injected {
                key: *key,
                first_valid_version: *first_valid_version,
                value: *value,
            },
        }
    }
}

impl PersistNodeExtract {
    /// The index of the node that the extract is of.
    pub open spec fn index(self) -> u32 {
        match self {
            PersistNodeExtract::Occupied { key, .. } => key.index,
            PersistNodeExtract::Injected { key, .. } => key.index,
        }
    }
}

/// What of the node under a key goes into a snapshot: where its value is stored or the
/// value itself; of an injected one the last value. A node without a value has nothing to
/// go in.
pub open spec fn extract_of(k: u32, node: NodeView) -> Option<ExtractView> {
    match node {
        NodeView::Occupied { value, deps, verified, dirtied, .. } => Some(
            ExtractView::Occupied {
                key: DiceKey { index: k },
                deps,
                verified,
                dirtied,
                value: match value.stored() {
                    Some(data_key) => PersistValueExtract::Paged(data_key),
                    None => PersistValueExtract::Hydrated(value.hydrated()->0),
                },
            },
        ),
        NodeView::Injected { values } => Some(
            ExtractView::Injected {
                key: DiceKey { index: k },
                first_valid_version: values.last().0,
                value: values.last().1,
            },
        ),
        NodeView::Vacant { .. } => None,
    }
}

/// The keys of the nodes that have a value.
pub open spec fn keys_with_value(nodes: Map<u32, NodeView>) -> Set<u32> {
    Set::new(|k: u32| nodes.contains_key(k) && !(nodes[k] is Vacant))
}

/// The nodes, and whether anything changed, once the changes were made one after the other.
pub open spec fn changed(
    nodes: Map<u32, NodeView>,
    updates: Seq<(DiceKey, ChangeType, InvalidationSourcePriority)>,
    v: VersionNumber,
) -> (Map<u32, NodeView>, bool)
    decreases updates.len(),
{
    if updates.len() == 0 {
        (nodes, false)
    } else {
        let (before, any) = changed(nodes, updates.drop_last(), v);
        let (k, change, priority) = updates.last();
        let key = VersionedGraphKey { v, k };
        (
            invalidated(before, key, change.kind(), priority),
            any || changes(before, key, change.kind()),
        )
    }
}

/// The nodes once what the one under a key keeps of its value was replaced.
pub open spec fn kept_as(
    nodes: Map<u32, NodeView>,
    k: DiceKey,
    kept: spec_fn(PagableNodeValue) -> PagableNodeValue,
) -> Map<u32, NodeView> {
    if nodes.contains_key(k.index) && nodes[k.index] is Occupied {
        nodes.insert(k.index, nodes[k.index].keeping(kept(nodes[k.index]->value)))
    } else {
        nodes
    }
}

/// The nodes once the given values were evicted, one after the other.
pub open spec fn evicted(
    nodes: Map<u32, NodeView>,
    keys: Seq<(DiceKey, DataKey, DiceValidValue)>,
) -> Map<u32, NodeView>
    decreases keys.len(),
{
    if keys.len() == 0 {
        nodes
    } else {
        let (k, data_key, serialized) = keys.last();
        kept_as(
            evicted(nodes, keys.drop_last()),
            k,
            |kept: PagableNodeValue| kept.evicted(data_key, serialized),
        )
    }
}

/// The nodes once those under the given keys were found not to be serializable.
pub open spec fn non_pageable(nodes: Map<u32, NodeView>, keys: Seq<DiceKey>) -> Map<u32, NodeView>
    decreases keys.len(),
{
    if keys.len() == 0 {
        nodes
    } else {
        kept_as(
            non_pageable(nodes, keys.drop_last()),
            keys.last(),
            |kept: PagableNodeValue| kept.non_pageable(),
        )
    }
}

/// The keys of the nodes that may be evicted under memory pressure: those that may be
/// paged out, are not referenced, and were not read by a node that is pending.
pub open spec fn evictable(
    nodes: Map<u32, NodeView>,
    referenced: Set<u32>,
    pending: Set<u32>,
) -> Set<u32> {
    Set::new(
        |k: u32|
            nodes.contains_key(k) && nodes[k].is(Presence::Candidate) && !referenced.contains(k)
                && !(exists|p: u32| #[trigger] pending.contains(p) && reads(nodes, p, k)),
    )
}

/// The core state.
pub struct CoreState {
    version_tracker: VersionTracker,
    graph: VersionedGraph,
    pending_termination_tasks: Vec<DiceTask>,
}

/// What the core state holds.
#[verifier::ext_equal]
pub struct CoreView {
    pub versions: TrackerView,
    pub nodes: Map<u32, NodeView>,
    pub pending: Seq<DiceTask>,
}

impl View for CoreState {
    type V = CoreView;

    closed spec fn view(&self) -> CoreView {
        CoreView {
            versions: self.version_tracker@,
            nodes: self.graph@,
            pending: self.pending_termination_tasks@,
        }
    }
}

impl CoreState {
    /// Whether the state is in order.
    pub closed spec fn wf(self) -> bool {
        self.version_tracker.wf() && self.graph.wf()
    }

    /// A state at the first version, without nodes and transactions.
    pub fn new() -> (r: CoreState)
        ensures
            r.wf(),
            r@ == (CoreView {
                versions: TrackerView {
                    current: VersionNumber { number: 1 },
                    active: Seq::empty(),
                    started: 0,
                },
                nodes: Map::empty(),
                pending: Seq::empty(),
            }),
    {
        let r: CoreState = CoreState {
            version_tracker: VersionTracker::new(),
            graph: VersionedGraph::new(),
            pending_termination_tasks: Vec::new(),
        };
        assert(r@.pending =~= Seq::<DiceTask>::empty());
        r
    }

    /// Makes the changes at the version after the current one. If any of them changes
    /// something, that version is the current one from then on; else nothing happened.
    /// Returns the current version.
    pub fn update_state(
        &mut self,
        updates: &Vec<(DiceKey, ChangeType, InvalidationSourcePriority)>,
    ) -> (r: VersionNumber)
        requires
            old(self).wf(),
            old(self)@.versions.current.number < u64::MAX,
        ensures
            final(self).wf(),
            ({
                let next = VersionNumber { number: (old(self)@.versions.current.number + 1) as u64 };
                let (nodes, any) = changed(old(self)@.nodes, updates@, next);
                &&& r == if any {
                    next
                } else {
                    old(self)@.versions.current
                }
                &&& final(self)@ == CoreView {
                    versions: TrackerView { current: r, ..old(self)@.versions },
                    nodes,
                    ..old(self)@
                }
            }),
    {
        let v: VersionNumber = self.version_tracker.next_version();
        let mut changes_recorded: bool = false;
        let mut i: usize = 0;
        while i < updates.len()
            invariant
                i <= updates@.len(),
                self.wf(),
                (self@.nodes, changes_recorded) == changed(
                    old(self)@.nodes,
                    updates@.take(i as int),
                    v,
                ),
                self@.versions == old(self)@.versions,
                self@.pending == old(self)@.pending,
            decreases updates@.len() - i,
        {
            let (key, change, priority) = updates[i];
            let kind: InvalidateKind = match change {
                ChangeType::Invalidate => InvalidateKind::ForceDirty,
                ChangeType::UpdateValue(value, storage) => InvalidateKind::Update(value, storage),
            };
            let recorded: bool = self.graph.invalidate(
                VersionedGraphKey::new(v, key),
                kind,
                priority,
            );
            changes_recorded = changes_recorded || recorded;
            assert(updates@.take(i + 1).drop_last() =~= updates@.take(i as int));
            i += 1;
        }
        assert(updates@.take(updates@.len() as int) =~= updates@);
        if changes_recorded {
            self.version_tracker.set_current(v);
            v
        } else {
            self.version_tracker.current()
        }
    }

    /// Begins a transaction at a version: gives it the epoch and the cache that all
    /// transactions at that version share.
    pub fn ctx_at_version(&mut self, v: VersionNumber) -> (r: (VersionEpoch, SharedCache))
        requires
            old(self).wf(),
            old(self)@.versions.started < u64::MAX,
        ensures
            final(self).wf(),
            final(self)@.nodes == old(self)@.nodes,
            final(self)@.pending == old(self)@.pending,
            final(self)@.versions.valid(),
            old(self)@.versions.joined(v, final(self)@.versions),
            is_active(final(self)@.versions.active, v),
            r == (active_at(final(self)@.versions.active, v).epoch, active_at(
                final(self)@.versions.active,
                v,
            ).cache),
    {
        self.version_tracker.at(v)
    }

    /// The current version.
    pub fn current_version(&self) -> (r: VersionNumber)
        ensures
            r == self@.versions.current,
    {
        self.version_tracker.current()
    }

    /// Ends a transaction at a version. With the last one its cache is given back: the
    /// tasks in it are to be cancelled and recorded.
    pub fn drop_ctx_at_version(&mut self, v: VersionNumber) -> (r: Option<SharedCache>)
        requires
            old(self).wf(),
        ensures
            final(self).wf(),
            final(self)@.nodes == old(self)@.nodes,
            final(self)@.pending == old(self)@.pending,
            final(self)@.versions.valid(),
            old(self)@.versions.left(v, final(self)@.versions),
            r == (if is_active(old(self)@.versions.active, v) && active_at(
                old(self)@.versions.active,
                v,
            ).refcount == 1 {
                Some(active_at(old(self)@.versions.active, v).cache)
            } else {
                None
            }),
    {
        self.version_tracker.drop_at_version(v)
    }

    /// Forgets the recorded tasks that are not pending any more.
    fn retain_pending(&mut self, still_pending: &HashSet<u64>)
        requires
            old(self).wf(),
        ensures
            final(self).wf(),
            final(self)@ == (CoreView {
                pending: old(self)@.pending.filter(|t: DiceTask| still_pending@.contains(t.id)),
                ..old(self)@
            }),
    {
        let mut kept: Vec<DiceTask> = Vec::new();
        let ghost all = self.pending_termination_tasks@;
        let ghost keep = |t: DiceTask| still_pending@.contains(t.id);
        let mut i: usize = 0;
        while i < self.pending_termination_tasks.len()
            invariant
                all == self.pending_termination_tasks@,
                i <= all.len(),
                kept@ == all.take(i as int).filter(keep),
                keep == (|t: DiceTask| still_pending@.contains(t.id)),
            decreases all.len() - i,
        {
            let task: DiceTask = self.pending_termination_tasks[i];
            proof {
                assert(all.take(i + 1).drop_last() =~= all.take(i as int));
                reveal(Seq::filter);
            }
            if still_pending.contains(&task.id) {
                kept.push(task);
            }
            i += 1;
        }
        assert(all.take(all.len() as int) =~= all);
        self.pending_termination_tasks = kept;
    }

    /// Records the tasks that were cancelled with a cache, and forgets the recorded ones
    /// that are not pending any more.
    pub fn record_cancelled_tasks(
        &mut self,
        still_pending: &HashSet<u64>,
        cancelled: &Vec<DiceTask>,
    )
        requires
            old(self).wf(),
        ensures
            final(self).wf(),
            final(self)@ == (CoreView {
                pending: old(self)@.pending.filter(|t: DiceTask| still_pending@.contains(t.id))
                    + cancelled@,
                ..old(self)@
            }),
    {
        self.retain_pending(still_pending);
        let ghost before = self@;
        let mut i: usize = 0;
        while i < cancelled.len()
            invariant
                i <= cancelled@.len(),
                self.wf(),
                self@.versions == before.versions,
                self@.nodes == before.nodes,
                self@.pending =~= before.pending + cancelled@.take(i as int),
            decreases cancelled@.len() - i,
        {
            self.pending_termination_tasks.push(cancelled[i]);
            i += 1;
        }
        assert(cancelled@.take(cancelled@.len() as int) =~= cancelled@);
    }

    /// The recorded tasks that are still pending; the others are forgotten.
    pub fn get_tasks_pending_cancellation(&mut self, still_pending: &HashSet<u64>) -> (r: Vec<
        DiceTask,
    >)
        requires
            old(self).wf(),
        ensures
            final(self).wf(),
            r@ == old(self)@.pending.filter(|t: DiceTask| still_pending@.contains(t.id)),
            final(self)@ == (CoreView { pending: r@, ..old(self)@ }),
    {
        self.retain_pending(still_pending);
        let mut out: Vec<DiceTask> = Vec::new();
        let mut i: usize = 0;
        while i < self.pending_termination_tasks.len()
            invariant
                i <= self.pending_termination_tasks@.len(),
                out@ =~= self.pending_termination_tasks@.take(i as int),
            decreases self.pending_termination_tasks@.len() - i,
        {
            out.push(self.pending_termination_tasks[i]);
            i += 1;
        }
        assert(out@ =~= self.pending_termination_tasks@);
        out
    }

    /// What is known of a key at a version.
    pub fn lookup_key(&self, key: VersionedGraphKey) -> (r: VersionedGraphResult)
        requires
            self.wf(),
        ensures
            r@ == lookup(self@.nodes, key.k, key.v.number as int),
    {
        self.graph.get(key)
    }

    /// Records a value that a transaction computed, unless the transaction is of no use any
    /// more. Gives back the value that the key has now, with the versions that it holds at.
    pub fn update_computed(
        &mut self,
        key: VersionedGraphKey,
        epoch: VersionEpoch,
        storage: StorageType,
        value: DiceValidValue,
        reusability: ValueReusable,
        deps: Vec<DiceKey>,
        invalidation_paths: TrackedInvalidationPaths,
    ) -> (r: Result<DiceComputedValue, TransactionCancelled>)
        requires
            old(self).wf(),
            key.v.number < u64::MAX,
        ensures
            final(self).wf(),
            r is Err <==> old(self)@.versions.cancelled(key.v, epoch),
            r is Err ==> final(self)@ == old(self)@,
            r matches Ok(computed) ==> {
                let nodes = old(self)@.nodes;
                &&& computed.valid.wf()
                &&& computed.paths == invalidation_paths
                &&& match storage {
                    StorageType::Normal => {
                        let node = computed_node(
                            nodes,
                            key,
                            value,
                            reusability,
                            deps@,
                            invalidation_paths,
                        );
                        &&& final(self)@ == CoreView {
                            nodes: nodes.insert(key.k.index, node),
                            ..old(self)@
                        }
                        &&& computed.valid.versions() == node->verified
                        &&& computed.value == (match node->value.hydrated() {
                            Some(resident) => resident,
                            None => value,
                        })
                    },
                    StorageType::Injected => {
                        let values = injected_from(injected_values(nodes, key.k), key.v, value);
                        &&& final(self)@ == CoreView {
                            nodes: nodes.insert(key.k.index, NodeView::Injected { values }),
                            ..old(self)@
                        }
                        &&& computed.valid.versions() == Set::new(|w: int| key.v.number <= w)
                        &&& computed.value == value
                    },
                }
            },
    {
        if self.version_tracker.is_cancelled(key.v, epoch) {
            Err(TransactionCancelled {  })
        } else {
            Ok(self.graph.update(key, value, reusability, deps, storage, invalidation_paths))
        }
    }

    /// Drops all nodes and ends all transactions.
    pub fn unstable_drop_everything(&mut self)
        requires
            old(self).wf(),
        ensures
            final(self).wf(),
            final(self)@ == (CoreView {
                versions: TrackerView { active: Seq::empty(), ..old(self)@.versions },
                nodes: Map::empty(),
                ..old(self)@
            }),
    {
        self.version_tracker.clear();
        self.graph.clear();
    }

    /// Replaces what the node under a key keeps of its value.
    fn replace_kept(&mut self, k: DiceKey, from: PagableNodeValue, to: PagableNodeValue)
        requires
            old(self).wf(),
            old(self)@.nodes.contains_key(k.index),
            old(self)@.nodes[k.index] is Occupied,
            old(self)@.nodes[k.index]->value == from,
        ensures
            final(self).wf(),
            final(self)@ == (CoreView {
                nodes: old(self)@.nodes.insert(k.index, old(self)@.nodes[k.index].keeping(to)),
                ..old(self)@
            }),
    {
        self.graph.keep(k, to);
    }

    /// What the node under a key keeps of a computed value.
    fn kept(&self, k: DiceKey) -> (r: Option<PagableNodeValue>)
        requires
            self.wf(),
        ensures
            r == (if self@.nodes.contains_key(k.index) && self@.nodes[k.index] is Occupied {
                Some(self@.nodes[k.index]->value)
            } else {
                None
            }),
    {
        match self.graph.node(k) {
            Some(node) => node.kept(),
            None => None,
        }
    }

    /// Pages values out that were serialized: each node of them that still holds the very
    /// allocation that was serialized keeps only where to find it. Nodes that hold another
    /// one by now, or none, and keys without a computed value stay as they are.
    pub fn evict_keys(&mut self, keys: &Vec<(DiceKey, DataKey, DiceValidValue)>)
        requires
            old(self).wf(),
        ensures
            final(self).wf(),
            final(self)@ == (CoreView { nodes: evicted(old(self)@.nodes, keys@), ..old(self)@ }),
    {
        let mut i: usize = 0;
        while i < keys.len()
            invariant
                i <= keys@.len(),
                self.wf(),
                self@.nodes == evicted(old(self)@.nodes, keys@.take(i as int)),
                self@.versions == old(self)@.versions,
                self@.pending == old(self)@.pending,
            decreases keys@.len() - i,
        {
            let (key, data_key, serialized) = keys[i];
            if let Some(kept) = self.kept(key) {
                self.replace_kept(key, kept, kept.evict(data_key, &serialized));
            }
            assert(keys@.take(i + 1).drop_last() =~= keys@.take(i as int));
            i += 1;
        }
        assert(keys@.take(keys@.len() as int) =~= keys@);
    }

    /// Marks nodes whose values could not be serialized: they are not to be paged out.
    pub fn mark_non_pageable(&mut self, keys: &Vec<DiceKey>)
        requires
            old(self).wf(),
        ensures
            final(self).wf(),
            final(self)@ == (CoreView {
                nodes: non_pageable(old(self)@.nodes, keys@),
                ..old(self)@
            }),
    {
        let mut i: usize = 0;
        while i < keys.len()
            invariant
                i <= keys@.len(),
                self.wf(),
                self@.nodes == non_pageable(old(self)@.nodes, keys@.take(i as int)),
                self@.versions == old(self)@.versions,
                self@.pending == old(self)@.pending,
            decreases keys@.len() - i,
        {
            let key: DiceKey = keys[i];
            if let Some(kept) = self.kept(key) {
                self.replace_kept(key, kept, kept.mark_non_pageable());
            }
            assert(keys@.take(i + 1).drop_last() =~= keys@.take(i as int));
            i += 1;
        }
        assert(keys@.take(keys@.len() as int) =~= keys@);
    }

    /// Gives a node its value back that was read from the store. A node that has its value
    /// in memory, or no computed one, stays as it is.
    pub fn rehydrate(&mut self, key: DiceKey, value: DiceValidValue)
        requires
            old(self).wf(),
        ensures
            final(self).wf(),
            final(self)@ == (CoreView {
                nodes: kept_as(
                    old(self)@.nodes,
                    key,
                    |kept: PagableNodeValue| kept.paged_in(value),
                ),
                ..old(self)@
            }),
    {
        if let Some(kept) = self.kept(key) {
            self.replace_kept(key, kept, kept.rehydrate(value));
        }
    }

    /// How many nodes take part in paging in each way.
    pub fn pagable_node_counts(&self) -> (r: PagableNodeCounts)
        requires
            self.wf(),
        ensures
            r.resident == keys_with(self@.nodes, Presence::Resident).len(),
            r.paged_out == keys_with(self@.nodes, Presence::PagedOut).len(),
            r.candidates == keys_with(self@.nodes, Presence::Candidate).len(),
    {
        self.graph.pagable_node_counts()
    }

    /// The caches of the active transactions.
    pub fn active_caches(&self) -> (r: Vec<SharedCache>)
        ensures
            r@.len() == self@.versions.active.len(),
            forall|i: int|
                0 <= i < r@.len() ==> #[trigger] r@[i] == self@.versions.active[i].cache,
    {
        let mut out: Vec<SharedCache> = Vec::new();
        let mut i: usize = 0;
        while i < self.version_tracker.active.len()
            invariant
                i <= self.version_tracker.active@.len(),
                out@.len() == i,
                forall|j: int|
                    0 <= j < i ==> #[trigger] out@[j] == self.version_tracker.active@[j].cache,
            decreases self.version_tracker.active@.len() - i,
        {
            out.push(self.version_tracker.active[i].cache);
            i += 1;
        }
        out
    }

    /// Some numbers about the state.
    pub fn metrics(&self) -> (r: Metrics)
        requires
            self.wf(),
        ensures
            r.key_count == self@.nodes.dom().len(),
            r.active_transaction_count == total_refcount(self@.versions.active) % 0x1_0000_0000,
    {
        let total: u64 = self.version_tracker.active_transactions();
        Metrics {
            key_count: self.graph.len(),
            active_transaction_count: (total % 0x1_0000_0000) as u32,
        }
    }

    /// All nodes with what they read, in ascending order of keys, and all active versions
    /// with how many transactions are active at each.
    pub fn introspection(&self) -> (r: (VersionedGraphIntrospectable, VersionIntrospectable))
        requires
            self.wf(),
        ensures
            lists(r.0.nodes@.map_values(|n: NodeDeps| n.key.index), self@.nodes.dom()),
            forall|i: int|
                #![trigger r.0.nodes@[i]]
                0 <= i < r.0.nodes@.len() ==> r.0.nodes@[i].deps@
                    == self@.nodes[r.0.nodes@[i].key.index].deps(),
            r.1.versions@ == self@.versions.active.map_values(
                |a: ActiveVersion| (a.version, a.refcount),
            ),
    {
        let keys: Vec<u32> = self.graph.keys();
        let mut nodes: Vec<NodeDeps> = Vec::new();
        let mut i: usize = 0;
        while i < keys.len()
            invariant
                self.wf(),
                lists(keys@, self@.nodes.dom()),
                i <= keys@.len(),
                nodes@.len() == i,
                forall|j: int|
                    #![trigger nodes@[j]]
                    0 <= j < i ==> nodes@[j].key.index == keys@[j] && nodes@[j].deps@
                        == self@.nodes[keys@[j]].deps(),
            decreases keys@.len() - i,
        {
            let key: DiceKey = DiceKey { index: keys[i] };
            assert(keys@.contains(keys@[i as int]));
            let deps: Vec<DiceKey> = match self.graph.node(key) {
                Some(node) => match node.deps() {
                    Some(deps) => copy_keys(deps),
                    None => Vec::new(),
                },
                None => Vec::new(),
            };
            assert(deps@ =~= self@.nodes[key.index].deps());
            nodes.push(NodeDeps { key, deps });
            i += 1;
        }
        assert(nodes@.map_values(|n: NodeDeps| n.key.index) =~= keys@);
        let mut versions: Vec<(VersionNumber, u64)> = Vec::new();
        let mut j: usize = 0;
        while j < self.version_tracker.active.len()
            invariant
                j <= self.version_tracker.active@.len(),
                versions@ =~= self.version_tracker.active@.take(j as int).map_values(
                    |a: ActiveVersion| (a.version, a.refcount),
                ),
            decreases self.version_tracker.active@.len() - j,
        {
            let active: ActiveVersion = self.version_tracker.active[j];
            versions.push((active.version, active.refcount));
            j += 1;
        }
        assert(self.version_tracker.active@.take(self.version_tracker.active@.len() as int)
            =~= self.version_tracker.active@);
        (VersionedGraphIntrospectable { nodes }, VersionIntrospectable { versions })
    }

    /// The nodes whose values may be paged out, with their values, in ascending order of
    /// keys.
    pub fn keys_to_page_out(&self) -> (r: Vec<(DiceKey, DiceValidValue)>)
        requires
            self.wf(),
        ensures
            lists(
                r@.map_values(|e: (DiceKey, DiceValidValue)| e.0.index),
                keys_with(self@.nodes, Presence::Candidate),
            ),
            forall|i: int|
                #![trigger r@[i]]
                0 <= i < r@.len() ==> self@.nodes[r@[i].0.index]->value.hydrated() == Some(r@[i].1),
    {
        let keys: Vec<u32> = self.graph.page_out_candidates();
        let mut out: Vec<(DiceKey, DiceValidValue)> = Vec::new();
        let ghost nodes = self@.nodes;
        let ghost wanted = keys_with(nodes, Presence::Candidate);
        let mut i: usize = 0;
        while i < keys.len()
            invariant
                self.wf(),
                nodes == self@.nodes,
                wanted == keys_with(nodes, Presence::Candidate),
                lists(keys@, wanted),
                i <= keys@.len(),
                out@.len() == i,
                forall|j: int| #![trigger out@[j]] 0 <= j < i ==> out@[j].0.index == keys@[j],
                forall|j: int|
                    #![trigger out@[j]]
                    0 <= j < i ==> nodes[out@[j].0.index]->value.hydrated() == Some(out@[j].1),
            decreases keys@.len() - i,
        {
            let key: DiceKey = DiceKey { index: keys[i] };
            assert(keys@.contains(keys@[i as int]));
            if let Some(kept) = self.kept(key) {
                if let Some(value) = kept.as_hydrated() {
                    out.push((key, value));
                }
            }
            i += 1;
        }
        assert(out@.map_values(|e: (DiceKey, DiceValidValue)| e.0.index) =~= keys@);
        out
    }

    /// The nodes whose values are only in the store, with where to find them, in ascending
    /// order of keys.
    pub fn paged_out_keys(&self) -> (r: Vec<(DiceKey, DataKey)>)
        requires
            self.wf(),
        ensures
            lists(
                r@.map_values(|e: (DiceKey, DataKey)| e.0.index),
                keys_with(self@.nodes, Presence::PagedOut),
            ),
            forall|i: int|
                #![trigger r@[i]]
                0 <= i < r@.len() ==> self@.nodes[r@[i].0.index]->value.stored() == Some(r@[i].1),
    {
        let keys: Vec<u32> = self.graph.keys();
        let mut out: Vec<(DiceKey, DataKey)> = Vec::new();
        let ghost nodes = self@.nodes;
        let ghost wanted = keys_with(nodes, Presence::PagedOut);
        let ghost mut picked: Seq<u32> = Seq::empty();
        let mut i: usize = 0;
        proof {
            lemma_pick_ends(keys@, wanted, nodes.dom());
        }
        while i < keys.len()
            invariant
                self.wf(),
                nodes == self@.nodes,
                wanted == keys_with(nodes, Presence::PagedOut),
                lists(keys@, nodes.dom()),
                i <= keys@.len(),
                lists(picked, within(keys@.take(i as int), wanted)),
                out@.len() == picked.len(),
                forall|j: int|
                    #![trigger out@[j]]
                    0 <= j < out@.len() ==> out@[j].0.index == picked[j],
                forall|j: int|
                    #![trigger out@[j]]
                    0 <= j < out@.len() ==> nodes[out@[j].0.index]->value.stored() == Some(
                        out@[j].1,
                    ),
            decreases keys@.len() - i,
        {
            let key: DiceKey = DiceKey { index: keys[i] };
            proof {
                assert(keys@.contains(keys@[i as int]));
                lemma_pick(keys@, i as int, wanted, picked);
            }
            if let Some(kept) = self.kept(key) {
                if let Some(data_key) = kept.data_key() {
                    out.push((key, data_key));
                    proof {
                        picked = picked.push(key.index);
                    }
                }
            }
            i += 1;
        }
        proof {
            lemma_pick_ends(keys@, wanted, nodes.dom());
            assert(out@.map_values(|e: (DiceKey, DataKey)| e.0.index) =~= picked);
        }
        out
    }

    /// Which computed values are in memory and which are only in the store.
    pub fn pagable_status(&self) -> (r: PagableStatusRaw)
        requires
            self.wf(),
        ensures
            self@.nodes.dom().finite(),
            r.total_nodes == self@.nodes.dom().len(),
            lists(
                r.resident@.map_values(|k: DiceKey| k.index),
                keys_with(self@.nodes, Presence::Resident),
            ),
            lists(
                r.paged_out@.map_values(|k: DiceKey| k.index),
                keys_with(self@.nodes, Presence::PagedOut),
            ),
            r.counts.resident == r.resident@.len(),
            r.counts.paged_out == r.paged_out@.len(),
            r.counts.candidates == keys_with(self@.nodes, Presence::Candidate).len(),
            r.total_nodes >= r.counts.resident + r.counts.paged_out,
    {
        let keys: Vec<u32> = self.graph.keys();
        let mut resident: Vec<DiceKey> = Vec::new();
        let mut paged_out: Vec<DiceKey> = Vec::new();
        let ghost nodes = self@.nodes;
        let ghost in_memory = keys_with(nodes, Presence::Resident);
        let ghost stored = keys_with(nodes, Presence::PagedOut);
        let ghost mut some: Seq<u32> = Seq::empty();
        let ghost mut others: Seq<u32> = Seq::empty();
        let mut i: usize = 0;
        proof {
            lemma_pick_ends(keys@, in_memory, nodes.dom());
            lemma_pick_ends(keys@, stored, nodes.dom());
        }
        while i < keys.len()
            invariant
                self.wf(),
                nodes == self@.nodes,
                in_memory == keys_with(nodes, Presence::Resident),
                stored == keys_with(nodes, Presence::PagedOut),
                lists(keys@, nodes.dom()),
                i <= keys@.len(),
                lists(some, within(keys@.take(i as int), in_memory)),
                lists(others, within(keys@.take(i as int), stored)),
                resident@.len() == some.len(),
                paged_out@.len() == others.len(),
                forall|j: int|
                    #![trigger resident@[j]]
                    0 <= j < resident@.len() ==> resident@[j].index == some[j],
                forall|j: int|
                    #![trigger paged_out@[j]]
                    0 <= j < paged_out@.len() ==> paged_out@[j].index == others[j],
            decreases keys@.len() - i,
        {
            let key: DiceKey = DiceKey { index: keys[i] };
            proof {
                assert(keys@.contains(keys@[i as int]));
                lemma_pick(keys@, i as int, in_memory, some);
                lemma_pick(keys@, i as int, stored, others);
            }
            match self.kept(key) {
                Some(PagableNodeValue::PagedOut(_)) => {
                    paged_out.push(key);
                    proof {
                        others = others.push(key.index);
                    }
                },
                Some(_) => {
                    resident.push(key);
                    proof {
                        some = some.push(key.index);
                    }
                },
                None => {},
            }
            i += 1;
        }
        let total_nodes: usize = self.graph.len();
        proof {
            lemma_pick_ends(keys@, in_memory, nodes.dom());
            lemma_pick_ends(keys@, stored, nodes.dom());
            lemma_lists_len(some, in_memory);
            lemma_lists_len(others, stored);
            law_counts_fit(nodes);
            assert(resident@.map_values(|k: DiceKey| k.index) =~= some);
            assert(paged_out@.map_values(|k: DiceKey| k.index) =~= others);
        }
        PagableStatusRaw {
            total_nodes,
            counts: self.graph.pagable_node_counts(),
            resident,
            paged_out,
        }
    }

    /// Whether a node that is pending read the given key.
    fn has_pending_reader(&self, key: DiceKey, pending: &HashSet<u32>) -> (r: bool)
        requires
            self.wf(),
        ensures
            r == (exists|p: u32| #[trigger]
                pending@.contains(p) && reads(self@.nodes, p, key.index)),
    {
        let readers: Vec<u32> = self.graph.rdeps(key);
        let mut i: usize = 0;
        while i < readers.len()
            invariant
                i <= readers@.len(),
                forall|p: u32| #[trigger]
                    readers@.contains(p) <==> reads(self@.nodes, p, key.index),
                forall|j: int| 0 <= j < i ==> !pending@.contains(#[trigger] readers@[j]),
            decreases readers@.len() - i,
        {
            let p: u32 = readers[i];
            assert(readers@.contains(p));
            if pending.contains(&p) {
                return true;
            }
            i += 1;
        }
        assert forall|p: u32| #[trigger] pending@.contains(p) implies !reads(
            self@.nodes,
            p,
            key.index,
        ) by {
            if readers@.contains(p) {
                let j = choose|j: int| 0 <= j < readers@.len() && readers@[j] == p;
                assert(!pending@.contains(readers@[j]));
            }
        }
        false
    }

    /// The nodes whose values may be evicted under memory pressure, in ascending order of
    /// keys: those that may be paged out, that no active transaction references, and that no
    /// pending computation read.
    pub fn pressure_eviction_candidates(
        &self,
        referenced: &HashSet<u32>,
        pending: &HashSet<u32>,
    ) -> (r: Vec<PressureCandidate>)
        requires
            self.wf(),
        ensures
            lists(
                r@.map_values(|c: PressureCandidate| c.key.index),
                evictable(self@.nodes, referenced@, pending@),
            ),
            forall|i: int|
                #![trigger r@[i]]
                0 <= i < r@.len() ==> {
                    let node = self@.nodes[r@[i].key.index];
                    &&& node->value.hydrated() == Some(r@[i].value)
                    &&& r@[i].last_verified_begin.number == last_run(node->verified)
                },
    {
        let keys: Vec<u32> = self.graph.page_out_candidates();
        let mut out: Vec<PressureCandidate> = Vec::new();
        let ghost nodes = self@.nodes;
        let ghost all = keys_with(nodes, Presence::Candidate);
        let ghost wanted = evictable(nodes, referenced@, pending@);
        let ghost mut picked: Seq<u32> = Seq::empty();
        let mut i: usize = 0;
        proof {
            lemma_pick_ends(keys@, wanted, all);
        }
        while i < keys.len()
            invariant
                self.wf(),
                nodes == self@.nodes,
                all == keys_with(nodes, Presence::Candidate),
                wanted == evictable(nodes, referenced@, pending@),
                lists(keys@, all),
                i <= keys@.len(),
                lists(picked, within(keys@.take(i as int), wanted)),
                out@.len() == picked.len(),
                forall|j: int|
                    #![trigger out@[j]]
                    0 <= j < out@.len() ==> out@[j].key.index == picked[j],
                forall|j: int|
                    #![trigger out@[j]]
                    0 <= j < out@.len() ==> {
                        let node = nodes[out@[j].key.index];
                        &&& node->value.hydrated() == Some(out@[j].value)
                        &&& out@[j].last_verified_begin.number == last_run(node->verified)
                    },
            decreases keys@.len() - i,
        {
            let key: DiceKey = DiceKey { index: keys[i] };
            proof {
                assert(keys@.contains(keys@[i as int]));
                assert(all.contains(key.index));
                lemma_pick(keys@, i as int, wanted, picked);
            }
            let excluded: bool = referenced.contains(&key.index) || self.has_pending_reader(
                key,
                pending,
            );
            assert(excluded == !wanted.contains(key.index));
            if !excluded {
                if let Some(VersionedGraphNode::Occupied(occ)) = self.graph.node(key) {
                    if let Some(value) = occ.value.as_hydrated() {
                        out.push(
                            PressureCandidate {
                                key,
                                value,
                                last_verified_begin: occ.last_verified_begin(),
                            },
                        );
                        proof {
                            picked = picked.push(key.index);
                        }
                    }
                }
            }
            i += 1;
        }
        proof {
            lemma_pick_ends(keys@, wanted, all);
            assert(out@.map_values(|c: PressureCandidate| c.key.index) =~= picked);
        }
        out
    }

    /// The current version, and of every node with a value what goes into a snapshot, in
    /// ascending order of keys.
    pub fn persist_extract(&self) -> (r: (VersionNumber, Vec<PersistNodeExtract>))
        requires
            self.wf(),
        ensures
            r.0 == self@.versions.current,
            lists(
                r.1@.map_values(|e: PersistNodeExtract| e.index()),
                keys_with_value(self@.nodes),
            ),
            forall|i: int|
                #![trigger r.1@[i]]
                0 <= i < r.1@.len() ==> Some(r.1@[i]@) == extract_of(
                    r.1@[i].index(),
                    self@.nodes[r.1@[i].index()],
                ),
            forall|i: int|
                #![trigger r.1@[i]]
                0 <= i < r.1@.len() ==> (r.1@[i] matches PersistNodeExtract::Occupied {
                    verified_ranges,
                    ..
                } ==> verified_ranges.wf()),
    {
        let keys: Vec<u32> = self.graph.keys();
        let mut out: Vec<PersistNodeExtract> = Vec::new();
        let ghost nodes = self@.nodes;
        let ghost wanted = keys_with_value(nodes);
        let ghost mut picked: Seq<u32> = Seq::empty();
        let mut i: usize = 0;
        proof {
            lemma_pick_ends(keys@, wanted, nodes.dom());
        }
        while i < keys.len()
            invariant
                self.wf(),
                nodes == self@.nodes,
                wanted == keys_with_value(nodes),
                lists(keys@, nodes.dom()),
                i <= keys@.len(),
                lists(picked, within(keys@.take(i as int), wanted)),
                out@.len() == picked.len(),
                forall|j: int|
                    #![trigger out@[j]]
                    0 <= j < out@.len() ==> out@[j].index() == picked[j],
                forall|j: int|
                    #![trigger out@[j]]
                    0 <= j < out@.len() ==> Some(out@[j]@) == extract_of(
                        out@[j].index(),
                        nodes[out@[j].index()],
                    ),
                forall|j: int|
                    #![trigger out@[j]]
                    0 <= j < out@.len() ==> (out@[j] matches PersistNodeExtract::Occupied {
                        verified_ranges,
                        ..
                    } ==> verified_ranges.wf()),
            decreases keys@.len() - i,
        {
            let key: DiceKey = DiceKey { index: keys[i] };
            proof {
                assert(keys@.contains(keys@[i as int]));
                lemma_pick(keys@, i as int, wanted, picked);
            }
            if let Some(node) = self.graph.node(key) {
                if let Some(extract) = node.extract(key) {
                    out.push(extract);
                    proof {
                        picked = picked.push(key.index);
                    }
                }
            }
            i += 1;
        }
        proof {
            lemma_pick_ends(keys@, wanted, nodes.dom());
            assert(out@.map_values(|e: PersistNodeExtract| e.index()) =~= picked);
        }
        (self.version_tracker.current(), out)
    }

    /// Puts nodes in that were read from a snapshot, and resumes the numbering of versions
    /// at the one that it was taken at.
    pub fn persist_install(
        &mut self,
        nodes: Vec<(DiceKey, VersionedGraphNode)>,
        at_version: VersionNumber,
    )
        requires
            old(self).wf(),
            forall|i: int| #![trigger nodes@[i]] 0 <= i < nodes@.len() ==> nodes@[i].1.wf(),
        ensures
            final(self).wf(),
            final(self)@ == (CoreView {
                versions: TrackerView { current: at_version, ..old(self)@.versions },
                nodes: installed(old(self)@.nodes, node_views(nodes@)),
                ..old(self)@
            }),
    {
        self.graph.install_persisted_nodes(nodes);
        self.version_tracker.set_current(at_version);
    }
}

impl VersionedGraphNode {
    /// What of the node goes into a snapshot, if it has a value.
    fn extract(&self, key: DiceKey) -> (r: Option<PersistNodeExtract>)
        requires
            self.wf(),
        ensures
            match r {
                Some(extract) => extract_of(key.index, self@) == Some(extract@) && extract.index()
                    == key.index && (extract matches PersistNodeExtract::Occupied {
                    verified_ranges,
                    ..
                } ==> verified_ranges.wf()),
                None => self@ is Vacant,
            },
    {
        match self {
            VersionedGraphNode::Occupied(occ) => {
                let value: PersistValueExtract = match occ.value {
                    PagableNodeValue::PagedOut(data_key) => PersistValueExtract::Paged(data_key),
                    PagableNodeValue::Fresh(v) | PagableNodeValue::Recomputed(v)
                    | PagableNodeValue::NonPageable(v) => PersistValueExtract::Hydrated(v),
                };
                let verified_ranges: VersionRanges = occ.verified.duplicate();
                assert(verified_ranges.versions() =~= occ.verified.versions());
                Some(
                    PersistNodeExtract::Occupied {
                        key,
                        deps: copy_keys(&occ.deps),
                        verified_ranges,
                        dirtied_history: occ.dirtied.duplicate(),
                        value,
                    },
                )
            },
            VersionedGraphNode::Injected(inj) => {
                let (first_valid_version, value) = inj.latest_for_persist();
                Some(PersistNodeExtract::Injected { key, first_valid_version, value })
            },
            VersionedGraphNode::Vacant(_) => None,
        }
    }
}

} // verus!
