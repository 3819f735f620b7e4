//! What a change does, and what it leaves: from what is given to the state to what is found in it
//! afterwards.
use vstd::prelude::*;

use crate::core_laws::{
    is_affected, is_changed, law_changes_dirty_exactly_what_is_affected, takes_effect,
};
use crate::core_state::{changed, ChangeType};
use crate::force_dirty::InvalidationSourcePriority;
use crate::graph::{chain, depends_on, invalidated, reads};
use crate::graph_laws::{law_forced_dirt_has_to_be_computed, law_injected_value_is_found};
use crate::graph_types::{
    changes, computed_node, computed_versions, deps_hold_alike, history_of, invalidated_node,
    is_latest_until, lookup, LookupView, StorageType, ValueReusable, VersionedGraphKey,
};
use crate::nodes::{injected_at, injected_from, NodeView, Presence};
use crate::value::{DiceKey, DiceValidValue, PagableNodeValue, TrackedInvalidationPaths};
use crate::versions::VersionNumber;

verus! {

/// The changes of a list are made one after the other: those of its first part, then those of
/// the rest.
proof fn lemma_changed_in_parts(
    nodes: Map<u32, NodeView>,
    updates: Seq<(DiceKey, ChangeType, InvalidationSourcePriority)>,
    n: int,
    v: VersionNumber,
)
    requires
        0 <= n <= updates.len(),
    ensures
        ({
            let (mid, some) = changed(nodes, updates.take(n), v);
            let (after, more) = changed(mid, updates.skip(n), v);
            changed(nodes, updates, v) == (after, some || more)
        }),
    decreases updates.len(),
{
    let mid = changed(nodes, updates.take(n), v).0;
    if n == updates.len() {
        assert(updates.take(n) =~= updates);
        assert(updates.skip(n) =~= Seq::empty());
    } else {
        let front = updates.drop_last();
        assert(front.take(n) =~= updates.take(n));
        assert(front.skip(n) =~= updates.skip(n).drop_last());
        assert(updates.skip(n).last() == updates.last());
        lemma_changed_in_parts(nodes, front, n, v);
        assert(changed(mid, updates.skip(n).drop_last(), v) == changed(mid, front.skip(n), v));
    }
}

/// One change alone is that change.
proof fn lemma_one_change(
    nodes: Map<u32, NodeView>,
    k: DiceKey,
    change: ChangeType,
    priority: InvalidationSourcePriority,
    v: VersionNumber,
)
    ensures
        changed(nodes, seq![(k, change, priority)], v) == (
            invalidated(nodes, VersionedGraphKey { v, k }, change.kind(), priority),
            changes(nodes, VersionedGraphKey { v, k }, change.kind()),
        ),
{
    let updates = seq![(k, change, priority)];
    assert(updates.drop_last() =~= Seq::empty());
    assert(changed(nodes, updates.drop_last(), v) == (nodes, false));
    assert(updates.last() == (k, change, priority));
}

/// A new version is made just where one of the changes changes something.
pub proof fn law_a_version_is_made_for_a_change(
    nodes: Map<u32, NodeView>,
    updates: Seq<(DiceKey, ChangeType, InvalidationSourcePriority)>,
    v: VersionNumber,
)
    ensures
        changed(nodes, updates, v).1 <==> exists|u: int|
            0 <= u < updates.len() && #[trigger] takes_effect(nodes, updates, v, u),
        !changed(nodes, updates, v).1 ==> changed(nodes, updates, v).0 == nodes,
    decreases updates.len(),
{
    if updates.len() > 0 {
        let n = updates.len() - 1;
        let front = updates.drop_last();
        law_a_version_is_made_for_a_change(nodes, front, v);
        assert(updates.take(n) =~= front);
        assert(updates.last() == updates[n]);
        assert forall|u: int| 0 <= u < n implies #[trigger] takes_effect(nodes, updates, v, u)
            == takes_effect(nodes, front, v, u) by {
            assert(front.take(u) =~= updates.take(u));
        }
        if changed(nodes, front, v).1 {
            let u = choose|u: int|
                0 <= u < front.len() && #[trigger] takes_effect(nodes, front, v, u);
            assert(takes_effect(nodes, updates, v, u));
        }
        if changed(nodes, updates, v).1 && !changed(nodes, front, v).1 {
            assert(takes_effect(nodes, updates, v, n));
        }
        if exists|u: int| 0 <= u < updates.len() && #[trigger] takes_effect(nodes, updates, v, u) {
            let u = choose|u: int|
                0 <= u < updates.len() && #[trigger] takes_effect(nodes, updates, v, u);
            if u < n {
                assert(takes_effect(nodes, front, v, u));
            }
        }
    }
}

/// Whether key `k` is changed by the `u`-th of the changes alone.
pub open spec fn only_at(
    updates: Seq<(DiceKey, ChangeType, InvalidationSourcePriority)>,
    k: DiceKey,
    u: int,
) -> bool {
    &&& 0 <= u < updates.len()
    &&& updates[u].0 == k
    &&& forall|i: int| #![trigger updates[i]] 0 <= i < updates.len() && i != u ==> updates[i].0 != k
}

/// Changes to other keys leave an injected node as it is, and a key without a node without one.
proof fn lemma_others_leave_it(
    nodes: Map<u32, NodeView>,
    updates: Seq<(DiceKey, ChangeType, InvalidationSourcePriority)>,
    v: VersionNumber,
    k: DiceKey,
)
    requires
        forall|i: int| #![trigger updates[i]] 0 <= i < updates.len() ==> updates[i].0 != k,
        nodes.contains_key(k.index) ==> nodes[k.index] is Injected,
    ensures
        changed(nodes, updates, v).0.contains_key(k.index) <==> nodes.contains_key(k.index),
        nodes.contains_key(k.index) ==> changed(nodes, updates, v).0[k.index] == nodes[k.index],
{
    assert(!is_changed(nodes, updates, v, k.index)) by {
        if is_changed(nodes, updates, v, k.index) {
            let u = choose|u: int|
                0 <= u < updates.len() && updates[u].0.index == k.index && #[trigger] takes_effect(
                    nodes,
                    updates,
                    v,
                    u,
                );
            assert(updates[u].0 == k);
        }
    }
    law_changes_dirty_exactly_what_is_affected(nodes, updates, v, k.index);
}

/// Giving a leaf a value that differs from the one it has is a change, whichever of the two is
/// larger and whatever else is changed with it; so is giving a value to a key that has no node.
/// There is a new version, and from it on the leaf has the new value.
pub proof fn law_a_different_leaf_value_is_a_change(
    nodes: Map<u32, NodeView>,
    updates: Seq<(DiceKey, ChangeType, InvalidationSourcePriority)>,
    u: int,
    k: DiceKey,
    value: DiceValidValue,
    v: VersionNumber,
    w: int,
)
    requires
        only_at(updates, k, u),
        updates[u].1 == ChangeType::UpdateValue(value, StorageType::Injected),
        nodes.contains_key(k.index) ==> (nodes[k.index] matches NodeView::Injected { values }
            && values.last().1.class != value.class),
        v.number <= w,
    ensures
        changed(nodes, updates, v).1,
        is_changed(nodes, updates, v, k.index),
        lookup(changed(nodes, updates, v).0, k, w) matches LookupView::Match { value: found, .. }
            && found == value,
{
    let before = updates.take(u);
    let rest = updates.skip(u + 1);
    let mid = changed(nodes, before, v).0;
    assert forall|i: int| #![trigger before[i]] 0 <= i < before.len() implies before[i].0 != k by {
        assert(before[i] == updates[i]);
    }
    lemma_others_leave_it(nodes, before, v, k);
    assert(takes_effect(nodes, updates, v, u));
    law_a_version_is_made_for_a_change(nodes, updates, v);
    let one = updates.take(u + 1);
    let next = changed(nodes, one, v).0;
    assert(one.drop_last() =~= before);
    assert(one.last() == updates[u]);
    let key = VersionedGraphKey { v, k };
    law_injected_value_is_found(mid, key, value, updates[u].2, w);
    assert(lookup(next, k, w) matches LookupView::Match { value: found, .. } && found == value);
    assert(next.contains_key(k.index) && next[k.index] is Injected);
    assert forall|i: int| #![trigger rest[i]] 0 <= i < rest.len() implies rest[i].0 != k by {
        assert(rest[i] == updates[u + 1 + i]);
    }
    lemma_others_leave_it(next, rest, v, k);
    lemma_changed_in_parts(nodes, updates, u + 1, v);
}

/// Who reads a key depends on it, and so does whoever reads one that depends on it; nobody else
/// does.
pub proof fn law_dependence_goes_from_reader_to_reader(nodes: Map<u32, NodeView>, x: u32, k: u32)
    ensures
        depends_on(nodes, x, k) <==> reads(nodes, x, k) || exists|y: u32| #[trigger]
            depends_on(nodes, y, k) && reads(nodes, x, y),
{
    if reads(nodes, x, k) {
        assert(chain(nodes, seq![k, x]));
        assert(seq![k, x].last() == x);
    }
    if exists|y: u32| #[trigger] depends_on(nodes, y, k) && reads(nodes, x, y) {
        let y = choose|y: u32| #[trigger] depends_on(nodes, y, k) && reads(nodes, x, y);
        let path = choose|path: Seq<u32>| #[trigger]
            chain(nodes, path) && path[0] == k && path.last() == y;
        let longer = path.push(x);
        assert forall|i: int| #![trigger longer[i]] 1 <= i < longer.len() implies reads(
            nodes,
            longer[i],
            longer[i - 1],
        ) by {
            if i < path.len() {
                assert(reads(nodes, path[i], path[i - 1]));
            }
        }
        assert(chain(nodes, longer));
        assert(longer.last() == x);
    }
    if depends_on(nodes, x, k) {
        let path = choose|path: Seq<u32>| #[trigger]
            chain(nodes, path) && path[0] == k && path.last() == x;
        let n = path.len() - 1;
        assert(reads(nodes, path[n], path[n - 1]));
        if n > 1 {
            let front = path.drop_last();
            assert forall|i: int| #![trigger front[i]] 1 <= i < front.len() implies reads(
                nodes,
                front[i],
                front[i - 1],
            ) by {
                assert(reads(nodes, path[i], path[i - 1]));
            }
            assert(chain(nodes, front));
            assert(depends_on(nodes, path[n - 1], k));
        }
    }
}

/// A leaf that gets a different value reaches everything that depends on it, at any distance: from
/// the new version on none of it is served.
pub proof fn law_a_changed_leaf_reaches_its_dependents(
    nodes: Map<u32, NodeView>,
    updates: Seq<(DiceKey, ChangeType, InvalidationSourcePriority)>,
    u: int,
    k: DiceKey,
    value: DiceValidValue,
    x: DiceKey,
    v: VersionNumber,
    w: int,
)
    requires
        only_at(updates, k, u),
        updates[u].1 == ChangeType::UpdateValue(value, StorageType::Injected),
        nodes.contains_key(k.index) ==> (nodes[k.index] matches NodeView::Injected { values }
            && values.last().1.class != value.class),
        depends_on(nodes, x.index, k.index),
        forall|i: int| #![trigger updates[i]] 0 <= i < updates.len() ==> updates[i].0 != x,
        v.number <= w,
    ensures
        !(lookup(changed(nodes, updates, v).0, x, w) is Match),
        !(lookup(changed(nodes, updates, v).0, x, w) is Stored),
{
    law_a_different_leaf_value_is_a_change(nodes, updates, u, k, value, v, w);
    assert(!is_changed(nodes, updates, v, x.index)) by {
        if is_changed(nodes, updates, v, x.index) {
            let i = choose|i: int|
                0 <= i < updates.len() && updates[i].0.index == x.index && #[trigger] takes_effect(
                    nodes,
                    updates,
                    v,
                    i,
                );
            assert(updates[i].0 == x);
        }
    }
    assert(is_affected(nodes, updates, v, x.index));
    law_changes_dirty_exactly_what_is_affected(nodes, updates, v, x.index);
    law_dependence_goes_from_reader_to_reader(nodes, x.index, k.index);
    assert(nodes.contains_key(x.index));
}

/// A key for which a value was computed reads just the keys that the computation was given as its
/// deps, all of them.
pub proof fn law_a_computed_node_reads_all_its_deps(
    nodes: Map<u32, NodeView>,
    key: VersionedGraphKey,
    value: DiceValidValue,
    reusability: ValueReusable,
    deps: Seq<DiceKey>,
    paths: TrackedInvalidationPaths,
    i: int,
    d: u32,
)
    ensures
        ({
            let after = nodes.insert(
                key.k.index,
                computed_node(nodes, key, value, reusability, deps, paths),
            );
            &&& 0 <= i < deps.len() ==> reads(after, key.k.index, deps[i].index)
            &&& reads(after, key.k.index, d) ==> deps.contains(DiceKey { index: d })
            &&& after[key.k.index].deps() == deps
        }),
{
    if 0 <= i < deps.len() {
        assert(deps[i] == DiceKey { index: deps[i].index });
        assert(deps.contains(deps[i]));
    }
}

/// The set holds a largest version up to `v`, if it holds any.
proof fn lemma_latest_exists(versions: Set<int>, v: int, u: int)
    requires
        versions.contains(u),
        u <= v,
    ensures
        exists|p: int| #[trigger] is_latest_until(versions, v, p) && u <= p,
    decreases v - u,
{
    if exists|q: int| u < q <= v && #[trigger] versions.contains(q) {
        let q = choose|q: int| u < q <= v && #[trigger] versions.contains(q);
        lemma_latest_exists(versions, v, q);
        let p = choose|p: int| #[trigger] is_latest_until(versions, v, p) && q <= p;
        assert(is_latest_until(versions, v, p) && u <= p);
    } else {
        assert(is_latest_until(versions, v, u));
    }
}

/// A later change of any one of the deps that a computation was given leaves its value served no
/// more from the new version on. Where the key was never forced dirty, the deps are to be checked
/// at the new version: all of them, against a version from the computation on.
pub proof fn law_a_change_of_any_dep_reaches_the_value(
    nodes: Map<u32, NodeView>,
    key: VersionedGraphKey,
    value: DiceValidValue,
    reusability: ValueReusable,
    deps: Seq<DiceKey>,
    paths: TrackedInvalidationPaths,
    i: int,
    updates: Seq<(DiceKey, ChangeType, InvalidationSourcePriority)>,
    u: int,
    leaf: DiceValidValue,
    v: VersionNumber,
    w: int,
)
    requires
        0 <= i < deps.len(),
        deps[i] != key.k,
        only_at(updates, deps[i], u),
        updates[u].1 == ChangeType::UpdateValue(leaf, StorageType::Injected),
        nodes.contains_key(deps[i].index) ==> (nodes[deps[i].index] matches NodeView::Injected {
            values,
        } && values.last().1.class != leaf.class),
        forall|j: int| #![trigger updates[j]] 0 <= j < updates.len() ==> updates[j].0 != key.k,
        key.v.number < v.number <= w,
    ensures
        ({
            let after = changed(
                nodes.insert(
                    key.k.index,
                    computed_node(nodes, key, value, reusability, deps, paths),
                ),
                updates,
                v,
            ).0;
            &&& !(lookup(after, key.k, w) is Match)
            &&& !(lookup(after, key.k, w) is Stored)
            &&& history_of(nodes, key.k).versions.len() == 0 ==> (lookup(
                after,
                key.k,
                v.number as int,
            ) matches LookupView::CheckDeps { prev_verified_version, deps: found, .. } && found
                == deps && key.v.number <= prev_verified_version < v.number)
        }),
{
    let node = computed_node(nodes, key, value, reusability, deps, paths);
    let mid = nodes.insert(key.k.index, node);
    law_a_computed_node_reads_all_its_deps(nodes, key, value, reusability, deps, paths, i, 0);
    law_dependence_goes_from_reader_to_reader(mid, key.k.index, deps[i].index);
    law_a_changed_leaf_reaches_its_dependents(mid, updates, u, deps[i], leaf, key.k, v, w);
    law_a_different_leaf_value_is_a_change(mid, updates, u, deps[i], leaf, v, w);
    assert(!is_changed(mid, updates, v, key.k.index)) by {
        if is_changed(mid, updates, v, key.k.index) {
            let j = choose|j: int|
                0 <= j < updates.len() && updates[j].0.index == key.k.index && #[trigger]
                    takes_effect(mid, updates, v, j);
            assert(updates[j].0 == key.k);
        }
    }
    assert(is_affected(mid, updates, v, key.k.index));
    law_changes_dirty_exactly_what_is_affected(mid, updates, v, key.k.index);
    let after = changed(mid, updates, v).0;
    assert(after[key.k.index] == node.dirty_from(v.number as int));
    if history_of(nodes, key.k).versions.len() == 0 {
        let verified = after[key.k.index]->verified;
        let (a, b) = (key.v.number as int, v.number as int);
        assert(computed_versions(nodes, key, deps).contains(a));
        assert(verified.contains(a));
        lemma_latest_exists(verified, b, a);
        let p = choose|p: int| #[trigger] is_latest_until(verified, b, p) && a <= p;
        assert(!history_of(nodes, key.k).separates(b, p));
        assert forall|q: int| #[trigger] is_latest_until(verified, b, q) implies q == p by {
            assert(verified.contains(q) && verified.contains(p));
        }
    }
}

/// Whether key `d` is known to have at version `w` the value that it is found with at version
/// `v`.
pub open spec fn found_alike(nodes: Map<u32, NodeView>, d: DiceKey, v: int, w: int) -> bool {
    match lookup(nodes, d, v) {
        LookupView::Match { valid, .. } => valid.contains(w),
        LookupView::Stored { valid, .. } => valid.contains(w),
        _ => false,
    }
}

/// A value that is computed for a key that had none holds at just the versions at which each of
/// its deps is known to have the value that it was computed from, and at the version that it was
/// computed at.
pub proof fn law_a_value_holds_while_its_deps_do(
    nodes: Map<u32, NodeView>,
    key: VersionedGraphKey,
    value: DiceValidValue,
    reusability: ValueReusable,
    deps: Seq<DiceKey>,
    paths: TrackedInvalidationPaths,
    w: int,
)
    requires
        !nodes.contains_key(key.k.index),
        0 <= w,
    ensures
        (lookup(
            nodes.insert(
                key.k.index,
                computed_node(nodes, key, value, reusability, deps, paths),
            ),
            key.k,
            w,
        ) matches LookupView::Match { value: found, .. } && found == value) <==> (w == key.v.number
            || forall|i: int|
            #![trigger deps[i]]
            0 <= i < deps.len() ==> found_alike(nodes, deps[i], key.v.number as int, w)),
{
    let v = key.v.number as int;
    let node = computed_node(nodes, key, value, reusability, deps, paths);
    assert forall|i: int| #![trigger deps[i]] 0 <= i < deps.len() implies (found_alike(
        nodes,
        deps[i],
        v,
        w,
    ) <==> nodes.contains_key(deps[i].index) && nodes[deps[i].index].holds_alike(v, w)) by {
        let d = deps[i];
        if nodes.contains_key(d.index) {
            match nodes[d.index] {
                NodeView::Injected { values } => {
                    if injected_at(values, v) is Some {
                        let entry = injected_at(values, v)->0;
                        let same = Set::new(|x: int| injected_at(values, x) == Some(entry));
                        assert(same.contains(w) <==> injected_at(values, w) == Some(entry));
                    }
                },
                _ => {},
            }
        }
    }
    let fresh = computed_versions(nodes, key, deps);
    assert(!history_of(nodes, key.k).separates(v, w));
    assert(fresh.contains(w) <==> w == v || deps_hold_alike(nodes, deps, v, w));
    if deps_hold_alike(nodes, deps, v, w) {
        assert forall|i: int| #![trigger deps[i]] 0 <= i < deps.len() implies found_alike(
            nodes,
            deps[i],
            v,
            w,
        ) by {}
    }
    if forall|i: int|
        #![trigger deps[i]]
        0 <= i < deps.len() ==> found_alike(nodes, deps[i], v, w) {
        assert(deps_hold_alike(nodes, deps, v, w));
    }
}

/// A key that has a value in memory that equals the one computed keeps the very allocation that
/// it has; with another value it has the new one. Either is found at the version computed at.
pub proof fn law_an_equal_value_keeps_its_allocation(
    nodes: Map<u32, NodeView>,
    key: VersionedGraphKey,
    value: DiceValidValue,
    deps: Seq<DiceKey>,
    paths: TrackedInvalidationPaths,
    had: DiceValidValue,
)
    requires
        nodes.contains_key(key.k.index),
        nodes[key.k.index] matches NodeView::Occupied { value: kept, .. } && (kept
            == PagableNodeValue::Fresh(had) || kept == PagableNodeValue::Recomputed(had) || kept
            == PagableNodeValue::NonPageable(had)),
    ensures
        lookup(
            nodes.insert(
                key.k.index,
                computed_node(nodes, key, value, ValueReusable::EqualityBased, deps, paths),
            ),
            key.k,
            key.v.number as int,
        ) matches LookupView::Match { value: found, .. } && found == (if had.class == value.class {
            had
        } else {
            value
        }),
{
    assert(computed_versions(nodes, key, deps).contains(key.v.number as int));
}

/// A value that is kept, since an equal one was computed or nothing that it read has changed, is
/// still found wherever it was found.
pub proof fn law_a_kept_value_is_found_where_it_was(
    nodes: Map<u32, NodeView>,
    key: VersionedGraphKey,
    value: DiceValidValue,
    since: VersionNumber,
    deps: Seq<DiceKey>,
    paths: TrackedInvalidationPaths,
    w: int,
)
    requires
        nodes.contains_key(key.k.index),
        nodes[key.k.index] is Occupied,
    ensures
        ({
            let by_value = computed_node(nodes, key, value, ValueReusable::EqualityBased, deps, paths);
            let by_deps = computed_node(
                nodes,
                key,
                value,
                ValueReusable::VersionBased(since),
                deps,
                paths,
            );
            let at = lookup(nodes, key.k, w);
            let then = lookup(nodes, key.k, since.number as int);
            match at {
                LookupView::Match { value: had, .. } => {
                    &&& had.class == value.class ==> (lookup(
                        nodes.insert(key.k.index, by_value),
                        key.k,
                        w,
                    ) matches LookupView::Match { value: found, .. } && found == had)
                    &&& then is Match ==> (lookup(
                        nodes.insert(key.k.index, by_deps),
                        key.k,
                        w,
                    ) matches LookupView::Match { value: found, .. } && found == had)
                },
                LookupView::Stored { data_key, .. } => then is Stored ==> (lookup(
                    nodes.insert(key.k.index, by_deps),
                    key.k,
                    w,
                ) matches LookupView::Stored { data_key: found, .. } && found == data_key),
                _ => true,
            }
        }),
{
}

/// A key whose value is reused because its deps did not change since a version keeps what it has
/// just where that was found at the version; else it has the new value.
pub proof fn law_a_checked_value_is_kept(
    nodes: Map<u32, NodeView>,
    key: VersionedGraphKey,
    value: DiceValidValue,
    since: VersionNumber,
    deps: Seq<DiceKey>,
    paths: TrackedInvalidationPaths,
)
    requires
        nodes.contains_key(key.k.index),
        nodes[key.k.index] is Occupied,
    ensures
        ({
            let before = lookup(nodes, key.k, since.number as int);
            let after = lookup(
                nodes.insert(
                    key.k.index,
                    computed_node(
                        nodes,
                        key,
                        value,
                        ValueReusable::VersionBased(since),
                        deps,
                        paths,
                    ),
                ),
                key.k,
                key.v.number as int,
            );
            match before {
                LookupView::Match { value: had, .. } => after matches LookupView::Match {
                    value: found,
                    ..
                } && found == had,
                LookupView::Stored { data_key: had, .. } => after matches LookupView::Stored {
                    data_key: found,
                    ..
                } && found == had,
                _ => after matches LookupView::Match { value: found, .. } && found == value,
            }
        }),
{
    assert(computed_versions(nodes, key, deps).contains(key.v.number as int));
}

/// What was found at an earlier version is still found there after a change at a later one,
/// with the same value, unless the change is to the key itself; and nothing else is.
pub proof fn law_the_past_stays(
    nodes: Map<u32, NodeView>,
    updates: Seq<(DiceKey, ChangeType, InvalidationSourcePriority)>,
    x: DiceKey,
    v: VersionNumber,
    w: int,
)
    requires
        forall|i: int| #![trigger updates[i]] 0 <= i < updates.len() ==> updates[i].0 != x,
        w < v.number,
    ensures
        ({
            let after = lookup(changed(nodes, updates, v).0, x, w);
            match lookup(nodes, x, w) {
                LookupView::Match { value, .. } => after matches LookupView::Match {
                    value: found,
                    ..
                } && found == value,
                LookupView::Stored { data_key, .. } => after matches LookupView::Stored {
                    data_key: found,
                    ..
                } && found == data_key,
                _ => !(after is Match) && !(after is Stored),
            }
        }),
{
    assert(!is_changed(nodes, updates, v, x.index)) by {
        if is_changed(nodes, updates, v, x.index) {
            let i = choose|i: int|
                0 <= i < updates.len() && updates[i].0.index == x.index && #[trigger] takes_effect(
                    nodes,
                    updates,
                    v,
                    i,
                );
            assert(updates[i].0 == x);
        }
    }
    law_changes_dirty_exactly_what_is_affected(nodes, updates, v, x.index);
}

/// Invalidating a key that is no leaf, at a version at which it was not invalidated before, is a
/// change: from that version on it has to be computed, and what was found before is found there
/// as before. What it read is not forgotten.
pub proof fn law_an_invalidation_is_a_change(
    nodes: Map<u32, NodeView>,
    k: DiceKey,
    priority: InvalidationSourcePriority,
    v: VersionNumber,
    w: int,
)
    requires
        nodes.contains_key(k.index) ==> !(nodes[k.index] is Injected),
        !history_of(nodes, k).versions.contains(v),
    ensures
        ({
            let (after, any) = changed(nodes, seq![(k, ChangeType::Invalidate, priority)], v);
            &&& any
            &&& v.number <= w ==> lookup(after, k, w) == LookupView::Compute
            &&& w < v.number ==> match lookup(nodes, k, w) {
                LookupView::Match { value, .. } => lookup(after, k, w) matches LookupView::Match {
                    value: found,
                    ..
                } && found == value,
                LookupView::Stored { data_key, .. } => lookup(
                    after,
                    k,
                    w,
                ) matches LookupView::Stored { data_key: found, .. } && found == data_key,
                _ => !(lookup(after, k, w) is Match) && !(lookup(after, k, w) is Stored),
            }
            &&& history_of(after, k).versions == history_of(nodes, k).versions.push(v)
            &&& history_of(after, k).priority == priority
            &&& after.contains_key(k.index)
            &&& nodes.contains_key(k.index) ==> after[k.index].deps() == nodes[k.index].deps()
            &&& !nodes.contains_key(k.index) ==> after[k.index].deps().len() == 0
        }),
{
    lemma_one_change(nodes, k, ChangeType::Invalidate, priority, v);
    let key = VersionedGraphKey { v, k };
    let kind = ChangeType::Invalidate.kind();
    assert(changes(nodes, key, kind));
    if v.number <= w {
        law_forced_dirt_has_to_be_computed(nodes, key, priority, w);
    }
}

/// Invalidating a leaf, which is never computed, changes nothing.
pub proof fn law_invalidating_a_leaf_is_no_change(
    nodes: Map<u32, NodeView>,
    k: DiceKey,
    priority: InvalidationSourcePriority,
    v: VersionNumber,
)
    requires
        nodes.contains_key(k.index),
        nodes[k.index] is Injected,
    ensures
        changed(nodes, seq![(k, ChangeType::Invalidate, priority)], v) == (nodes, false),
{
    lemma_one_change(nodes, k, ChangeType::Invalidate, priority, v);
}

/// Giving a leaf a value from a version on leaves what was found for it before that version.
pub proof fn law_a_leaf_keeps_its_past(
    nodes: Map<u32, NodeView>,
    k: DiceKey,
    value: DiceValidValue,
    priority: InvalidationSourcePriority,
    v: VersionNumber,
    w: int,
)
    requires
        nodes.contains_key(k.index),
        nodes[k.index] is Injected,
        w < v.number,
    ensures
        match lookup(nodes, k, w) {
            LookupView::Match { value: had, .. } => lookup(
                changed(
                    nodes,
                    seq![(k, ChangeType::UpdateValue(value, StorageType::Injected), priority)],
                    v,
                ).0,
                k,
                w,
            ) matches LookupView::Match { value: found, .. } && found == had,
            _ => lookup(
                changed(
                    nodes,
                    seq![(k, ChangeType::UpdateValue(value, StorageType::Injected), priority)],
                    v,
                ).0,
                k,
                w,
            ) == LookupView::Compute,
        },
{
    lemma_one_change(
        nodes,
        k,
        ChangeType::UpdateValue(value, StorageType::Injected),
        priority,
        v,
    );
    lemma_earlier_values_stay(nodes[k.index]->values, v, value, w);
}

/// What a leaf has before a version stays when it is given a value from that version on.
proof fn lemma_earlier_values_stay(
    values: Seq<(VersionNumber, DiceValidValue)>,
    v: VersionNumber,
    value: DiceValidValue,
    w: int,
)
    requires
        w < v.number,
    ensures
        injected_at(injected_from(values, v, value), w) == injected_at(values, w),
    decreases values.len(),
{
    if values.len() > 0 && values.last().0.number >= v.number {
        lemma_earlier_values_stay(values.drop_last(), v, value, w);
    } else {
        assert(values.push((v, value)).drop_last() =~= values);
    }
}

/// Giving a computed key a value is a change unless an equal one is found for it at that version,
/// where nothing is changed. After a change the new value is found from that version on, up to
/// where the key was forced dirty, and nowhere else; it read nothing, and the history stays.
pub proof fn law_a_value_given_to_a_computed_key(
    nodes: Map<u32, NodeView>,
    k: DiceKey,
    value: DiceValidValue,
    priority: InvalidationSourcePriority,
    v: VersionNumber,
    w: int,
)
    requires
        nodes.contains_key(k.index) ==> !(nodes[k.index] is Injected),
    ensures
        ({
            let (after, any) = changed(
                nodes,
                seq![(k, ChangeType::UpdateValue(value, StorageType::Normal), priority)],
                v,
            );
            if lookup(nodes, k, v.number as int) matches LookupView::Match { value: had, .. } && had.class
                == value.class {
                !any && after == nodes
            } else {
                &&& any
                &&& if v.number <= w && !history_of(nodes, k).separates(v.number as int, w) {
                    lookup(after, k, w) matches LookupView::Match { value: found, paths, .. } && found
                        == value && paths.normal is None && paths.high is None
                } else {
                    lookup(after, k, w) == LookupView::Compute
                }
                &&& history_of(after, k) == history_of(nodes, k)
                &&& after[k.index].deps().len() == 0
            }
        }),
{
    lemma_one_change(
        nodes,
        k,
        ChangeType::UpdateValue(value, StorageType::Normal),
        priority,
        v,
    );
    let key = VersionedGraphKey { v, k };
    let kind = ChangeType::UpdateValue(value, StorageType::Normal).kind();
    if changes(nodes, key, kind) {
        let node = invalidated_node(nodes, key, kind, priority);
        let marked = nodes.insert(k.index, node);
        assert(!depends_on(marked, k.index, k.index)) by {
            if depends_on(marked, k.index, k.index) {
                let path = choose|path: Seq<u32>| #[trigger]
                    chain(marked, path) && path[0] == k.index && path.last() == k.index;
                assert(reads(marked, path[path.len() - 1], path[path.len() - 2]));
            }
        }
        let dirtied = history_of(nodes, k);
        let from = v.number as int;
        assert forall|p: int| #[trigger] is_latest_until(node->verified, w, p) && dirtied.separates(
            from,
            w,
        ) implies dirtied.separates(w, p) by {
            let i = choose|i: int|
                0 <= i < dirtied.versions.len() && {
                    let m = (#[trigger] dirtied.versions[i]).number as int;
                    from < m <= w || w < m <= from
                };
            assert(!dirtied.separates(from, p));
            assert(p < dirtied.versions[i].number <= w);
        }
    }
}

/// A value that is computed for a key without a node is in memory and may be paged out.
pub proof fn law_a_new_value_may_be_paged_out(
    nodes: Map<u32, NodeView>,
    key: VersionedGraphKey,
    value: DiceValidValue,
    reusability: ValueReusable,
    deps: Seq<DiceKey>,
    paths: TrackedInvalidationPaths,
)
    requires
        !nodes.contains_key(key.k.index),
    ensures
        ({
            let node = computed_node(nodes, key, value, reusability, deps, paths);
            &&& node.is(Presence::Candidate)
            &&& node.is(Presence::Resident)
            &&& !node.is(Presence::PagedOut)
            &&& node matches NodeView::Occupied { value: PagableNodeValue::Fresh(held), .. } && held
                == value
        }),
{
}

} // verus!
