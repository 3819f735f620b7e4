//! What is asked of the graph, and what it answers.
use vstd::prelude::*;

use crate::force_dirty::{ForceDirtyView, InvalidationSourcePriority};
use crate::nodes::{injected_at, injected_from, NodeView};
use crate::value::{
    DataKey, DiceComputedValue, DiceKey, DiceValidValue, PagableNodeValue,
    TrackedInvalidationPaths,
};
use crate::versions::{VersionNumber, VersionRanges};

verus! {

/// A key at a version.
#[derive(Debug, Clone, Copy, PartialEq, Eq, Structural)]
pub struct VersionedGraphKey {
    pub v: VersionNumber,
    pub k: DiceKey,
}

impl VersionedGraphKey {
    /// Key `k` at version `v`.
    pub fn new(v: VersionNumber, k: DiceKey) -> (r: VersionedGraphKey)
        ensures
            r == (VersionedGraphKey { v, k }),
    {
        VersionedGraphKey { v, k }
    }
}

/// How the values of a key come about.
#[derive(Debug, Clone, Copy, PartialEq, Eq, Structural)]
pub enum StorageType {
    /// They are computed.
    Normal,
    /// They come from outside.
    Injected,
}

/// When a node may keep the value that it has instead of a new one.
#[derive(Debug, Clone, Copy, PartialEq, Eq, Structural)]
pub enum ValueReusable {
    /// When the two are equal.
    EqualityBased,
    /// When the one it has holds at the given version.
    VersionBased(VersionNumber),
}

/// What makes a key dirty.
#[derive(Debug, Clone, Copy, PartialEq, Eq, Structural)]
pub enum InvalidateKind {
    /// It has to be computed anew.
    ForceDirty,
    /// It has the given value from now on.
    Update(DiceValidValue, StorageType),
}

/// What the graph knows of a key at a version.
#[derive(Debug, PartialEq, Eq)]
pub enum VersionedGraphResult {
    /// This value holds.
    Match(DiceComputedValue),
    /// The value that is stored there holds.
    Stored { data_key: DataKey, valid: VersionRanges, paths: TrackedInvalidationPaths },
    /// What is kept held at an earlier version, and holds if none of its deps changed
    /// since.
    CheckDeps {
        kept: PagableNodeValue,
        prev_verified_version: VersionNumber,
        deps: Vec<DiceKey>,
    },
    /// Nothing that is of use.
    Compute,
}

/// What an answer of the graph says.
#[verifier::ext_equal]
pub enum LookupView {
    Match { value: DiceValidValue, valid: Set<int>, paths: TrackedInvalidationPaths },
    Stored { data_key: DataKey, valid: Set<int>, paths: TrackedInvalidationPaths },
    CheckDeps { kept: PagableNodeValue, prev_verified_version: int, deps: Seq<DiceKey> },
    Compute,
}

impl View for VersionedGraphResult {
    type V = LookupView;

    open spec fn view(&self) -> LookupView {
        match self {
            VersionedGraphResult::Match(computed) => LookupView::Match {
                value: computed.value,
                valid: computed.valid.versions(),
                paths: computed.paths,
            },
            VersionedGraphResult::Stored { data_key, valid, paths } => LookupView::Stored {
                data_key: *data_key,
                valid: valid.versions(),
                paths: *paths,
            },
            VersionedGraphResult::CheckDeps { kept, prev_verified_version, deps } =>
                LookupView::CheckDeps {
                kept: *kept,
                prev_verified_version: prev_verified_version.number as int,
                deps: deps@,
            },
            VersionedGraphResult::Compute => LookupView::Compute,
        }
    }
}

/// Whether `p` is the largest version of the set that is at most `v`.
pub open spec fn is_latest_until(versions: Set<int>, v: int, p: int) -> bool {
    &&& versions.contains(p)
    &&& p <= v
    &&& forall|q: int| q <= v && #[trigger] versions.contains(q) ==> q <= p
}

/// What a node says at version `v`.
///
/// A value holds at the versions at which it was verified. At another version it may
/// still hold, if it was verified at an earlier one that no forced dirt separates from
/// this one: then the deps decide.
pub open spec fn known_at(node: NodeView, v: int) -> LookupView {
    match node {
        NodeView::Occupied { value, deps, verified, dirtied, paths } => if verified.contains(v) {
            match value.hydrated() {
                Some(resident) => LookupView::Match { value: resident, valid: verified, paths },
                None => LookupView::Stored { data_key: value.stored()->0, valid: verified, paths },
            }
        } else if exists|p: int| #[trigger]
            is_latest_until(verified, v, p) && !dirtied.separates(v, p) {
            LookupView::CheckDeps {
                kept: value,
                prev_verified_version: choose|p: int| #[trigger] is_latest_until(verified, v, p),
                deps,
            }
        } else {
            LookupView::Compute
        },
        NodeView::Injected { values } => match injected_at(values, v) {
            Some(entry) => LookupView::Match {
                value: entry.1,
                valid: Set::new(|w: int| injected_at(values, w) == Some(entry)),
                paths: TrackedInvalidationPaths { normal: None, high: None },
            },
            None => LookupView::Compute,
        },
        NodeView::Vacant { .. } => LookupView::Compute,
    }
}

/// What the nodes say of key `k` at version `v`.
pub open spec fn lookup(nodes: Map<u32, NodeView>, k: DiceKey, v: int) -> LookupView {
    if nodes.contains_key(k.index) {
        known_at(nodes[k.index], v)
    } else {
        LookupView::Compute
    }
}

/// The versions at which a node was forced dirty; none for a key without a node.
pub open spec fn history_of(nodes: Map<u32, NodeView>, k: DiceKey) -> ForceDirtyView {
    if nodes.contains_key(k.index) {
        nodes[k.index].history()
    } else {
        ForceDirtyView::clean()
    }
}

/// Whether each of the keys has at version `w` the value that it has at version `v`.
pub open spec fn deps_hold_alike(
    nodes: Map<u32, NodeView>,
    deps: Seq<DiceKey>,
    v: int,
    w: int,
) -> bool {
    forall|i: int|
        #![trigger deps[i]]
        0 <= i < deps.len() ==> nodes.contains_key(deps[i].index)
            && nodes[deps[i].index].holds_alike(v, w)
}

/// The versions at which a value holds that was computed from the given deps: those at
/// which no dep has another value, as far as no forced dirt lies between.
pub open spec fn computed_versions(
    nodes: Map<u32, NodeView>,
    key: VersionedGraphKey,
    deps: Seq<DiceKey>,
) -> Set<int> {
    let v = key.v.number as int;
    Set::new(
        |w: int|
            0 <= w && !history_of(nodes, key.k).separates(v, w) && (w == v || deps_hold_alike(
                nodes,
                deps,
                v,
                w,
            )),
    )
}

/// Whether a node may keep the value that it has instead of a new one.
pub open spec fn may_keep(
    node: NodeView,
    value: DiceValidValue,
    reusability: ValueReusable,
) -> bool {
    match node {
        NodeView::Occupied { value: kept, verified, .. } => match reusability {
            ValueReusable::EqualityBased => kept.hydrated() matches Some(had) && had.class
                == value.class,
            ValueReusable::VersionBased(p) => verified.contains(p.number as int),
        },
        _ => false,
    }
}

/// The node once `value` was computed for it from the given deps. If it may keep the
/// value that it has, that one holds at the new versions too; else the new one holds
/// there alone.
pub open spec fn computed_node(
    nodes: Map<u32, NodeView>,
    key: VersionedGraphKey,
    value: DiceValidValue,
    reusability: ValueReusable,
    deps: Seq<DiceKey>,
    paths: TrackedInvalidationPaths,
) -> NodeView {
    let fresh = computed_versions(nodes, key, deps);
    let dirtied = history_of(nodes, key.k);
    if nodes.contains_key(key.k.index) && nodes[key.k.index] is Occupied {
        let kept = nodes[key.k.index]->value;
        if may_keep(nodes[key.k.index], value, reusability) {
            NodeView::Occupied {
                value: kept,
                deps,
                verified: nodes[key.k.index]->verified + fresh,
                dirtied,
                paths,
            }
        } else {
            NodeView::Occupied {
                value: kept.recomputed(value),
                deps,
                verified: fresh,
                dirtied,
                paths,
            }
        }
    } else {
        NodeView::Occupied {
            value: PagableNodeValue::Fresh(value),
            deps,
            verified: fresh,
            dirtied,
            paths,
        }
    }
}

/// The injected values that a key has.
pub open spec fn injected_values(nodes: Map<u32, NodeView>, k: DiceKey) -> Seq<
    (VersionNumber, DiceValidValue),
> {
    if nodes.contains_key(k.index) && nodes[k.index] is Injected {
        nodes[k.index]->values
    } else {
        Seq::empty()
    }
}

/// Whether an invalidation changes anything: forced dirt does unless it is recorded
/// already or the key is an injected one; a value does unless the key has an equal one
/// already, which for a computed one has to hold at this version.
pub open spec fn changes(
    nodes: Map<u32, NodeView>,
    key: VersionedGraphKey,
    kind: InvalidateKind,
) -> bool {
    if !nodes.contains_key(key.k.index) {
        true
    } else {
        match (nodes[key.k.index], kind) {
            (NodeView::Injected { .. }, InvalidateKind::ForceDirty) => false,
            (node, InvalidateKind::ForceDirty) => !node.history().versions.contains(key.v),
            (NodeView::Injected { values }, InvalidateKind::Update(value, StorageType::Injected)) =>
                values.last().1.class != value.class,
            (
                NodeView::Occupied { value: kept, verified, .. },
                InvalidateKind::Update(value, StorageType::Normal),
            ) => !(kept.hydrated() matches Some(had) && had.class == value.class && verified.contains(
                key.v.number as int,
            )),
            _ => true,
        }
    }
}

/// The node that an invalidation leaves under its key.
pub open spec fn invalidated_node(
    nodes: Map<u32, NodeView>,
    key: VersionedGraphKey,
    kind: InvalidateKind,
    priority: InvalidationSourcePriority,
) -> NodeView {
    let v = key.v.number as int;
    let dirtied = history_of(nodes, key.k);
    match kind {
        InvalidateKind::ForceDirty => {
            if nodes.contains_key(key.k.index) && nodes[key.k.index] is Occupied {
                let node = nodes[key.k.index];
                NodeView::Occupied {
                    value: node->value,
                    deps: node.deps(),
                    verified: Set::new(|w: int| node->verified.contains(w) && w < v),
                    dirtied: dirtied.with(key.v, priority),
                    paths: node->paths,
                }
            } else {
                NodeView::Vacant {
                    dirtied: dirtied.with(key.v, priority),
                    deps: if nodes.contains_key(key.k.index) {
                        nodes[key.k.index].deps()
                    } else {
                        Seq::empty()
                    },
                }
            }
        },
        InvalidateKind::Update(value, StorageType::Injected) => NodeView::Injected {
            values: injected_from(injected_values(nodes, key.k), key.v, value),
        },
        InvalidateKind::Update(value, StorageType::Normal) => NodeView::Occupied {
            value: if nodes.contains_key(key.k.index) && nodes[key.k.index] is Occupied {
                nodes[key.k.index]->value.recomputed(value)
            } else {
                PagableNodeValue::Fresh(value)
            },
            deps: Seq::empty(),
            verified: Set::new(|w: int| v <= w && !dirtied.separates(v, w)),
            dirtied,
            paths: TrackedInvalidationPaths { normal: None, high: None },
        },
    }
}

} // verus!
