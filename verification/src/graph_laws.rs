//! What holds of the graph across its operations.
use vstd::prelude::*;

use crate::force_dirty::InvalidationSourcePriority;
use crate::graph::{chain, depends_on, invalidated, reads};
use crate::graph_types::{
    changes, computed_node, computed_versions, history_of, injected_values, invalidated_node,
    is_latest_until, lookup, may_keep, InvalidateKind, LookupView, StorageType, ValueReusable,
    VersionedGraphKey,
};
use crate::nodes::{lemma_last_injected, NodeView};
use crate::value::{DiceKey, DiceValidValue, TrackedInvalidationPaths};
use crate::versions::VersionNumber;

verus! {

/// Nodes that agree on what all but one of them read agree on who depends on that one.
proof fn lemma_same_dependents(
    a: Map<u32, NodeView>,
    b: Map<u32, NodeView>,
    k: u32,
    path: Seq<u32>,
)
    requires
        chain(a, path),
        path[0] == k,
        path.last() != k,
        forall|x: u32, d: u32| x != k ==> (#[trigger] reads(a, x, d) <==> reads(b, x, d)),
    ensures
        depends_on(b, path.last(), k),
    decreases path.len(),
{
    let n = path.len() - 1;
    let x = path[n];
    let y = path[n - 1];
    assert(reads(a, path[n], path[n - 1]));
    assert(reads(b, x, y));
    if y == k {
        assert(chain(b, seq![k, x]));
        assert(seq![k, x].last() == x);
    } else {
        let front = path.drop_last();
        assert(chain(a, front)) by {
            assert forall|i: int| #![trigger front[i]] 1 <= i < front.len() implies reads(
                a,
                front[i],
                front[i - 1],
            ) by {
                assert(reads(a, path[i], path[i - 1]));
            }
        }
        lemma_same_dependents(a, b, k, front);
        let p = choose|p: Seq<u32>| #[trigger] chain(b, p) && p[0] == k && p.last() == y;
        let longer = p.push(x);
        assert(chain(b, longer)) by {
            assert forall|i: int| #![trigger longer[i]] 1 <= i < longer.len() implies reads(
                b,
                longer[i],
                longer[i - 1],
            ) by {
                if i < p.len() {
                    assert(reads(b, p[i], p[i - 1]));
                }
            }
        }
        assert(longer.last() == x);
    }
}

/// An invalidation that changes something dirties, besides its own key, exactly what
/// depends on it, and leaves every other node as it was.
pub proof fn law_invalidation_dirties_exactly_the_dependents(
    nodes: Map<u32, NodeView>,
    key: VersionedGraphKey,
    kind: InvalidateKind,
    priority: InvalidationSourcePriority,
    x: u32,
)
    requires
        changes(nodes, key, kind),
        x != key.k.index,
    ensures
        invalidated(nodes, key, kind, priority).contains_key(x) <==> nodes.contains_key(x),
        nodes.contains_key(x) ==> invalidated(nodes, key, kind, priority)[x] == (if depends_on(
            nodes,
            x,
            key.k.index,
        ) {
            nodes[x].dirty_from(key.v.number as int)
        } else {
            nodes[x]
        }),
{
    let k = key.k.index;
    let marked = nodes.insert(k, invalidated_node(nodes, key, kind, priority));
    assert forall|p: u32, d: u32| p != k implies (#[trigger] reads(nodes, p, d) <==> reads(
        marked,
        p,
        d,
    )) by {}
    if depends_on(nodes, x, k) {
        let path = choose|path: Seq<u32>| #[trigger]
            chain(nodes, path) && path[0] == k && path.last() == x;
        lemma_same_dependents(nodes, marked, k, path);
    }
    if depends_on(marked, x, k) {
        let path = choose|path: Seq<u32>| #[trigger]
            chain(marked, path) && path[0] == k && path.last() == x;
        lemma_same_dependents(marked, nodes, k, path);
    }
}

/// An invalidation that changes nothing leaves every node as it was.
pub proof fn law_no_change_leaves_the_nodes(
    nodes: Map<u32, NodeView>,
    key: VersionedGraphKey,
    kind: InvalidateKind,
    priority: InvalidationSourcePriority,
)
    requires
        !changes(nodes, key, kind),
    ensures
        invalidated(nodes, key, kind, priority) == nodes,
{
}

/// Once a key was changed or forced dirty, no value that was computed from it is served
/// at that version or a later one: its dependents' deps are checked, or they are computed
/// anew.
pub proof fn law_no_stale_value_is_served(
    nodes: Map<u32, NodeView>,
    key: VersionedGraphKey,
    kind: InvalidateKind,
    priority: InvalidationSourcePriority,
    x: DiceKey,
    w: int,
)
    requires
        changes(nodes, key, kind),
        x != key.k,
        depends_on(nodes, x.index, key.k.index),
        key.v.number <= w,
    ensures
        !(lookup(invalidated(nodes, key, kind, priority), x, w) is Match),
        !(lookup(invalidated(nodes, key, kind, priority), x, w) is Stored),
{
    law_invalidation_dirties_exactly_the_dependents(nodes, key, kind, priority, x.index);
    let path = choose|path: Seq<u32>| #[trigger]
        chain(nodes, path) && path[0] == key.k.index && path.last() == x.index;
    assert(reads(nodes, path[path.len() - 1], path[path.len() - 2]));
    assert(!(nodes[x.index] is Injected));
}

/// What does not depend on a changed key is found as before, at every version.
pub proof fn law_what_is_independent_is_found_as_before(
    nodes: Map<u32, NodeView>,
    key: VersionedGraphKey,
    kind: InvalidateKind,
    priority: InvalidationSourcePriority,
    x: DiceKey,
    w: int,
)
    requires
        x != key.k,
        !depends_on(nodes, x.index, key.k.index),
    ensures
        lookup(invalidated(nodes, key, kind, priority), x, w) == lookup(nodes, x, w),
{
    if changes(nodes, key, kind) {
        law_invalidation_dirties_exactly_the_dependents(nodes, key, kind, priority, x.index);
    }
}

/// Whether a key has been forced dirty at version `v` and nothing is known to hold for
/// it from there on.
pub open spec fn dirty_since(nodes: Map<u32, NodeView>, k: DiceKey, v: VersionNumber) -> bool {
    &&& nodes.contains_key(k.index)
    &&& !(nodes[k.index] is Injected)
    &&& history_of(nodes, k).versions.contains(v)
    &&& nodes[k.index] is Occupied ==> forall|w: int| #[trigger]
        nodes[k.index]->verified.contains(w) ==> w < v.number
}

/// A key that is dirty since some version has to be computed there and later.
proof fn lemma_dirty_means_compute(
    nodes: Map<u32, NodeView>,
    k: DiceKey,
    v: VersionNumber,
    w: int,
)
    requires
        dirty_since(nodes, k, v),
        v.number <= w,
    ensures
        lookup(nodes, k, w) == LookupView::Compute,
{
    if let NodeView::Occupied { verified, dirtied, .. } = nodes[k.index] {
        let i = choose|i: int| 0 <= i < dirtied.versions.len() && dirtied.versions[i] == v;
        assert forall|p: int| #[trigger] is_latest_until(verified, w, p) implies dirtied.separates(
            w,
            p,
        ) by {
            assert(verified.contains(p));
            assert(p < dirtied.versions[i].number <= w);
        }
        assert(!verified.contains(w));
    }
}

/// A key that was forced dirty is dirty since then, and so has to be computed at that
/// version and at every later one. Only an injected key is not: its values are given.
pub proof fn law_forced_dirt_has_to_be_computed(
    nodes: Map<u32, NodeView>,
    key: VersionedGraphKey,
    priority: InvalidationSourcePriority,
    w: int,
)
    requires
        changes(nodes, key, InvalidateKind::ForceDirty),
        key.v.number <= w,
    ensures
        dirty_since(
            invalidated(nodes, key, InvalidateKind::ForceDirty, priority),
            key.k,
            key.v,
        ),
        lookup(invalidated(nodes, key, InvalidateKind::ForceDirty, priority), key.k, w)
            == LookupView::Compute,
{
    let after = invalidated(nodes, key, InvalidateKind::ForceDirty, priority);
    let before = history_of(nodes, key.k);
    let now = before.with(key.v, priority);
    assert(now.versions.contains(key.v)) by {
        if !before.versions.contains(key.v) {
            assert(now.versions[before.versions.len() as int] == key.v);
        }
    }
    assert(history_of(after, key.k) == now);
    lemma_dirty_means_compute(after, key.k, key.v, w);
}

/// Forced dirt is not forgotten after later computes at earlier versions: a key that is
/// dirty since version `v` still is once a value was computed for it at an earlier one.
pub proof fn law_forced_dirt_survives_earlier_computes(
    nodes: Map<u32, NodeView>,
    k: DiceKey,
    v: VersionNumber,
    key: VersionedGraphKey,
    value: DiceValidValue,
    reusability: ValueReusable,
    deps: Seq<DiceKey>,
    paths: TrackedInvalidationPaths,
    w: int,
)
    requires
        dirty_since(nodes, k, v),
        key.k == k,
        key.v.number < v.number <= w,
    ensures
        dirty_since(
            nodes.insert(k.index, computed_node(nodes, key, value, reusability, deps, paths)),
            k,
            v,
        ),
        lookup(
            nodes.insert(k.index, computed_node(nodes, key, value, reusability, deps, paths)),
            k,
            w,
        ) == LookupView::Compute,
{
    let node = computed_node(nodes, key, value, reusability, deps, paths);
    let after = nodes.insert(k.index, node);
    let dirtied = history_of(nodes, k);
    let i = choose|i: int| 0 <= i < dirtied.versions.len() && dirtied.versions[i] == v;
    assert forall|u: int| #[trigger] node->verified.contains(u) implies u < v.number by {
        if computed_versions(nodes, key, deps).contains(u) && v.number <= u {
            assert(key.v.number < dirtied.versions[i].number <= u);
            assert(dirtied.separates(key.v.number as int, u));
        }
    }
    lemma_dirty_means_compute(after, k, v, w);
}

/// What was computed for a key is found there: at the version that it was computed at,
/// the key has the new value, or the one it kept in its place.
pub proof fn law_computed_value_is_found(
    nodes: Map<u32, NodeView>,
    key: VersionedGraphKey,
    value: DiceValidValue,
    reusability: ValueReusable,
    deps: Seq<DiceKey>,
    paths: TrackedInvalidationPaths,
)
    ensures
        ({
            let node = computed_node(nodes, key, value, reusability, deps, paths);
            let found = lookup(nodes.insert(key.k.index, node), key.k, key.v.number as int);
            match node->value.hydrated() {
                Some(resident) => found == (LookupView::Match {
                    value: resident,
                    valid: node->verified,
                    paths,
                }) && (resident == value || may_keep(nodes[key.k.index], value, reusability)),
                None => found is Stored && may_keep(nodes[key.k.index], value, reusability),
            }
        }),
{
    let fresh = computed_versions(nodes, key, deps);
    assert(fresh.contains(key.v.number as int));
}

/// A key that a computation may replace by equality keeps a value that equals the new one.
pub proof fn law_kept_value_is_equal(
    nodes: Map<u32, NodeView>,
    key: VersionedGraphKey,
    value: DiceValidValue,
    deps: Seq<DiceKey>,
    paths: TrackedInvalidationPaths,
)
    ensures
        computed_node(
            nodes,
            key,
            value,
            ValueReusable::EqualityBased,
            deps,
            paths,
        )->value.hydrated() matches Some(resident) && resident.class == value.class,
{
}

/// A given value is found from the version on that it was given at.
pub proof fn law_injected_value_is_found(
    nodes: Map<u32, NodeView>,
    key: VersionedGraphKey,
    value: DiceValidValue,
    priority: InvalidationSourcePriority,
    w: int,
)
    requires
        changes(nodes, key, InvalidateKind::Update(value, StorageType::Injected)),
        key.v.number <= w,
    ensures
        lookup(
            invalidated(
                nodes,
                key,
                InvalidateKind::Update(value, StorageType::Injected),
                priority,
            ),
            key.k,
            w,
        ) matches LookupView::Match { value: found, .. } && found == value,
{
    lemma_last_injected(injected_values(nodes, key.k), key.v, value);
}

/// Giving a key the value that it has already changes nothing, so nothing that was
/// computed from it is dirtied.
pub proof fn law_same_injected_value_is_no_change(
    nodes: Map<u32, NodeView>,
    key: VersionedGraphKey,
    value: DiceValidValue,
    priority: InvalidationSourcePriority,
)
    requires
        nodes.contains_key(key.k.index),
        nodes[key.k.index] is Injected,
        nodes[key.k.index]->values.last().1.class == value.class,
    ensures
        !changes(nodes, key, InvalidateKind::Update(value, StorageType::Injected)),
        invalidated(
            nodes,
            key,
            InvalidateKind::Update(value, StorageType::Injected),
            priority,
        ) == nodes,
{
}

} // verus!
