//! What holds of the core state across its operations.
use vstd::prelude::*;

use crate::core_state::{
    changed, evictable, evicted, extract_of, kept_as, keys_with_value, non_pageable, ChangeType,
};
use crate::force_dirty::InvalidationSourcePriority;
use crate::graph::{chain, depends_on, installed, invalidated, reads};
use crate::graph_laws::law_invalidation_dirties_exactly_the_dependents;
use crate::graph_types::{
    changes, computed_node, invalidated_node, known_at, lookup, InvalidateKind, LookupView,
    StorageType, ValueReusable, VersionedGraphKey,
};
use crate::nodes::{NodeView, Presence};
use crate::store::keys_with;
use crate::value::{DataKey, DiceKey, DiceValidValue, PagableNodeValue, TrackedInvalidationPaths};
use crate::versions::VersionNumber;

verus! {

/// Whether the list asks for key `k` to be evicted to `data_key`, with the allocation that
/// the node holds.
pub open spec fn asks_for(
    keys: Seq<(DiceKey, DataKey, DiceValidValue)>,
    k: u32,
    data_key: DataKey,
    held: DiceValidValue,
) -> bool {
    exists|i: int|
        #![trigger keys[i]]
        0 <= i < keys.len() && keys[i].0.index == k && keys[i].1 == data_key
            && keys[i].2.allocation == held.allocation
}

/// Eviction is checked: a node that it changes held the very allocation that was
/// serialized, and keeps only where the list says that one is stored. Which nodes there are
/// and all else about them stays.
pub proof fn law_evict_keys_is_checked(
    nodes: Map<u32, NodeView>,
    keys: Seq<(DiceKey, DataKey, DiceValidValue)>,
    k: u32,
)
    ensures
        evicted(nodes, keys).contains_key(k) <==> nodes.contains_key(k),
        nodes.contains_key(k) ==> {
            let after = evicted(nodes, keys)[k];
            after == nodes[k] || (nodes[k] is Occupied && nodes[k]->value.hydrated() is Some && (
            exists|data_key: DataKey| #[trigger]
                asks_for(keys, k, data_key, nodes[k]->value.hydrated()->0) && after
                    == nodes[k].keeping(PagableNodeValue::PagedOut(data_key))))
        },
    decreases keys.len(),
{
    if keys.len() > 0 {
        let front = keys.drop_last();
        law_evict_keys_is_checked(nodes, front, k);
        let (key, data_key, serialized) = keys.last();
        if nodes.contains_key(k) {
            let before = evicted(nodes, front)[k];
            let after = evicted(nodes, keys)[k];
            if before != nodes[k] {
                let held = nodes[k]->value.hydrated()->0;
                let dk = choose|dk: DataKey| #[trigger]
                    asks_for(front, k, dk, held) && before == nodes[k].keeping(
                        PagableNodeValue::PagedOut(dk),
                    );
                let i = choose|i: int|
                    #![trigger front[i]]
                    0 <= i < front.len() && front[i].0.index == k && front[i].1 == dk
                        && front[i].2.allocation == held.allocation;
                assert(keys[i] == front[i]);
                assert(asks_for(keys, k, dk, held));
                assert(after =~= before);
            } else if after != before {
                assert(keys[keys.len() - 1] == keys.last());
                assert(asks_for(keys, k, data_key, before->value.hydrated()->0));
            } else {
                assert(after == nodes[k]);
            }
        }
    }
}

/// Once everything that may be paged out was evicted, with the values that the nodes held,
/// nothing may be paged out any more.
pub proof fn law_paging_out_all_leaves_no_candidate(
    nodes: Map<u32, NodeView>,
    keys: Seq<(DiceKey, DataKey, DiceValidValue)>,
)
    requires
        forall|k: u32| #[trigger]
            keys_with(nodes, Presence::Candidate).contains(k) ==> exists|i: int|
                #![trigger keys[i]]
                0 <= i < keys.len() && keys[i].0.index == k && Some(keys[i].2)
                    == nodes[k]->value.hydrated(),
    ensures
        keys_with(evicted(nodes, keys), Presence::Candidate) == Set::<u32>::empty(),
{
    assert forall|k: u32| !#[trigger]
        keys_with(evicted(nodes, keys), Presence::Candidate).contains(k) by {
        law_evict_keys_is_checked(nodes, keys, k);
        if keys_with(nodes, Presence::Candidate).contains(k) {
            let i = choose|i: int|
                #![trigger keys[i]]
                0 <= i < keys.len() && keys[i].0.index == k && Some(keys[i].2)
                    == nodes[k]->value.hydrated();
            law_what_is_serialized_goes_out(nodes, keys, k, i);
        }
    }
    assert(keys_with(evicted(nodes, keys), Presence::Candidate) =~= Set::<u32>::empty());
}

/// A node that the list asks for with the value that it holds goes out.
pub proof fn law_what_is_serialized_goes_out(
    nodes: Map<u32, NodeView>,
    keys: Seq<(DiceKey, DataKey, DiceValidValue)>,
    k: u32,
    i: int,
)
    requires
        nodes.contains_key(k),
        nodes[k] is Occupied,
        0 <= i < keys.len(),
        keys[i].0.index == k,
        Some(keys[i].2) == nodes[k]->value.hydrated(),
    ensures
        evicted(nodes, keys)[k].is(Presence::PagedOut),
    decreases keys.len(),
{
    let front = keys.drop_last();
    law_evict_keys_is_checked(nodes, front, k);
    if i < keys.len() - 1 {
        assert(front[i] == keys[i]);
        law_what_is_serialized_goes_out(nodes, front, k, i);
    }
}

/// Marking nodes as not serializable leaves none of them among those that may be paged
/// out, and changes nothing about other nodes.
pub proof fn law_non_pageable_is_no_candidate(
    nodes: Map<u32, NodeView>,
    keys: Seq<DiceKey>,
    k: DiceKey,
)
    ensures
        non_pageable(nodes, keys).contains_key(k.index) <==> nodes.contains_key(k.index),
        keys.contains(k) ==> !keys_with(non_pageable(nodes, keys), Presence::Candidate).contains(
            k.index,
        ),
        !keys.contains(k) && nodes.contains_key(k.index) ==> non_pageable(nodes, keys)[k.index]
            == nodes[k.index],
    decreases keys.len(),
{
    if keys.len() > 0 {
        let front = keys.drop_last();
        law_non_pageable_is_no_candidate(nodes, front, k);
        if keys.contains(k) && keys.last() != k {
            let i = choose|i: int| 0 <= i < keys.len() && keys[i] == k;
            assert(front[i] == k);
        }
        if front.contains(k) {
            let i = choose|i: int| 0 <= i < front.len() && front[i] == k;
            assert(keys[i] == k);
        }
        assert(keys[keys.len() - 1] == keys.last());
    }
}

/// A computed value that may not be paged out is never offered for it again: not after a
/// recompute, nor after being read back, evicted, marked, or dirtied.
pub proof fn law_not_offered_again(
    nodes: Map<u32, NodeView>,
    k: DiceKey,
    key: VersionedGraphKey,
    value: DiceValidValue,
    reusability: ValueReusable,
    deps: Seq<DiceKey>,
    paths: TrackedInvalidationPaths,
    evictions: Seq<(DiceKey, DataKey, DiceValidValue)>,
    marked: Seq<DiceKey>,
    kind: InvalidateKind,
    priority: InvalidationSourcePriority,
)
    requires
        nodes.contains_key(k.index),
        nodes[k.index] is Occupied,
        !nodes[k.index].is(Presence::Candidate),
    ensures
        !nodes.insert(
            key.k.index,
            computed_node(nodes, key, value, reusability, deps, paths),
        )[k.index].is(Presence::Candidate),
        !kept_as(nodes, key.k, |kept: PagableNodeValue| kept.paged_in(value))[k.index].is(
            Presence::Candidate,
        ),
        !evicted(nodes, evictions)[k.index].is(Presence::Candidate),
        !non_pageable(nodes, marked)[k.index].is(Presence::Candidate),
        !invalidated(nodes, key, kind, priority)[k.index].is(Presence::Candidate),
{
    law_evict_keys_is_checked(nodes, evictions, k.index);
    law_non_pageable_is_no_candidate(nodes, marked, k);
    if changes(nodes, key, kind) {
        let changed = nodes.insert(key.k.index, invalidated_node(nodes, key, kind, priority));
        assert(!changed[k.index].is(Presence::Candidate));
    }
}

/// Whatever pressure eviction offers may be paged out, is referenced by no active
/// transaction, and was read by nothing that is pending.
pub proof fn law_pressure_spares_what_is_in_use(
    nodes: Map<u32, NodeView>,
    referenced: Set<u32>,
    pending: Set<u32>,
    k: u32,
    p: u32,
)
    requires
        evictable(nodes, referenced, pending).contains(k),
    ensures
        keys_with(nodes, Presence::Candidate).contains(k),
        !referenced.contains(k),
        pending.contains(p) ==> !reads(nodes, p, k),
{
}

/// With no transaction active, pressure eviction offers all that may be paged out.
pub proof fn law_pressure_offers_all_when_idle(nodes: Map<u32, NodeView>)
    ensures
        evictable(nodes, Set::empty(), Set::empty()) == keys_with(nodes, Presence::Candidate),
{
    assert(evictable(nodes, Set::empty(), Set::empty()) =~= keys_with(nodes, Presence::Candidate));
}

/// Whether no key is listed twice.
pub open spec fn distinct_keys(new: Seq<(DiceKey, NodeView)>) -> bool {
    forall|i: int, j: int|
        #![trigger new[i], new[j]]
        0 <= i < j < new.len() ==> new[i].0 != new[j].0
}

/// A snapshot that is installed into an empty graph is all there is: under each of its keys
/// the graph has just that node.
pub proof fn law_installed_nodes_are_found(new: Seq<(DiceKey, NodeView)>, k: u32)
    requires
        distinct_keys(new),
    ensures
        installed(Map::empty(), new).contains_key(k) <==> exists|i: int|
            0 <= i < new.len() && (#[trigger] new[i]).0.index == k,
        forall|i: int|
            0 <= i < new.len() && (#[trigger] new[i]).0.index == k ==> installed(
                Map::empty(),
                new,
            )[k] == new[i].1,
    decreases new.len(),
{
    if new.len() > 0 {
        let front = new.drop_last();
        assert(distinct_keys(front)) by {
            assert forall|i: int, j: int|
                #![trigger front[i], front[j]]
                0 <= i < j < front.len() implies front[i].0 != front[j].0 by {
                assert(new[i].0 != new[j].0);
            }
        }
        law_installed_nodes_are_found(front, k);
        let last = new[new.len() - 1];
        assert(installed(Map::empty(), new) == installed(Map::empty(), front).insert(
            last.0.index,
            last.1,
        ));
        assert forall|i: int| 0 <= i < new.len() && (#[trigger] new[i]).0.index == k implies installed(
            Map::empty(),
            new,
        )[k] == new[i].1 by {
            if i < front.len() {
                assert(front[i] == new[i]);
                assert(new[i].0 != last.0);
            }
        }
        if installed(Map::empty(), front).contains_key(k) {
            let i = choose|i: int| 0 <= i < front.len() && (#[trigger] front[i]).0.index == k;
            assert(new[i] == front[i]);
        }
        if exists|i: int| 0 <= i < new.len() && (#[trigger] new[i]).0.index == k {
            let i = choose|i: int| 0 <= i < new.len() && (#[trigger] new[i]).0.index == k;
            if i < front.len() {
                assert(front[i] == new[i]);
            }
        }
    }
}

/// Who read whom is derived when a snapshot is installed: node `p` counts as a reader of
/// key `d` just if the snapshot lists `d` among its deps.
pub proof fn law_readers_are_derived_on_install(
    new: Seq<(DiceKey, NodeView)>,
    i: int,
    d: u32,
)
    requires
        distinct_keys(new),
        0 <= i < new.len(),
    ensures
        reads(installed(Map::empty(), new), new[i].0.index, d) <==> new[i].1.deps().contains(
            DiceKey { index: d },
        ),
{
    law_installed_nodes_are_found(new, new[i].0.index);
}

/// What goes into a snapshot of an installed graph is what was installed: of each of its
/// nodes, the same.
pub proof fn law_extract_undoes_install(new: Seq<(DiceKey, NodeView)>, i: int)
    requires
        distinct_keys(new),
        0 <= i < new.len(),
    ensures
        keys_with_value(installed(Map::empty(), new)).contains(new[i].0.index) <==> !(
        new[i].1 is Vacant),
        extract_of(new[i].0.index, installed(Map::empty(), new)[new[i].0.index]) == extract_of(
            new[i].0.index,
            new[i].1,
        ),
{
    law_installed_nodes_are_found(new, new[i].0.index);
}

/// A node that came back from a snapshot is found, checked or computed anew at just the
/// versions at which it was before, wherever its value is.
pub proof fn law_restored_node_is_as_good(before: NodeView, restored: NodeView, v: int)
    requires
        before is Occupied,
        restored is Occupied,
        restored.deps() == before.deps(),
        restored->verified == before->verified,
        forall|a: int, b: int| #[trigger]
            restored.history().separates(a, b) == before.history().separates(a, b),
    ensures
        (known_at(restored, v) is Match || known_at(restored, v) is Stored) <==> (known_at(
            before,
            v,
        ) is Match || known_at(before, v) is Stored),
        known_at(restored, v) is CheckDeps <==> known_at(before, v) is CheckDeps,
        known_at(restored, v) is Compute <==> known_at(before, v) is Compute,
{
}

/// Giving injected keys the values that they have already changes nothing: no new version,
/// and nothing dirtied.
pub proof fn law_unchanged_leaves_keep_the_version(
    nodes: Map<u32, NodeView>,
    updates: Seq<(DiceKey, ChangeType, InvalidationSourcePriority)>,
    v: VersionNumber,
)
    requires
        forall|i: int|
            #![trigger updates[i]]
            0 <= i < updates.len() ==> {
                let node = nodes[updates[i].0.index];
                &&& nodes.contains_key(updates[i].0.index)
                &&& node is Injected
                &&& updates[i].1 matches ChangeType::UpdateValue(value, StorageType::Injected)
                    && node->values.last().1.class == value.class
            },
    ensures
        changed(nodes, updates, v) == (nodes, false),
    decreases updates.len(),
{
    if updates.len() > 0 {
        let front = updates.drop_last();
        assert forall|i: int| #![trigger front[i]] 0 <= i < front.len() implies {
            let node = nodes[front[i].0.index];
            &&& nodes.contains_key(front[i].0.index)
            &&& node is Injected
            &&& front[i].1 matches ChangeType::UpdateValue(value, StorageType::Injected)
                && node->values.last().1.class == value.class
        } by {
            assert(front[i] == updates[i]);
        }
        law_unchanged_leaves_keep_the_version(nodes, front, v);
        assert(updates[updates.len() - 1] == updates.last());
    }
}

/// Whether the `u`-th of the changes, made after those before it, changes something.
pub open spec fn takes_effect(
    nodes: Map<u32, NodeView>,
    updates: Seq<(DiceKey, ChangeType, InvalidationSourcePriority)>,
    v: VersionNumber,
    u: int,
) -> bool {
    changes(
        changed(nodes, updates.take(u), v).0,
        VersionedGraphKey { v, k: updates[u].0 },
        updates[u].1.kind(),
    )
}

/// Whether one of the changes changes something about key `k`.
pub open spec fn is_changed(
    nodes: Map<u32, NodeView>,
    updates: Seq<(DiceKey, ChangeType, InvalidationSourcePriority)>,
    v: VersionNumber,
    k: u32,
) -> bool {
    exists|u: int|
        0 <= u < updates.len() && updates[u].0.index == k && #[trigger] takes_effect(
            nodes,
            updates,
            v,
            u,
        )
}

/// Whether node `x` depends on a key that one of the changes changes.
pub open spec fn is_affected(
    nodes: Map<u32, NodeView>,
    updates: Seq<(DiceKey, ChangeType, InvalidationSourcePriority)>,
    v: VersionNumber,
    x: u32,
) -> bool {
    exists|k: u32| #[trigger] is_changed(nodes, updates, v, k) && depends_on(nodes, x, k)
}

/// An invalidation makes no node read what it did not read before.
proof fn lemma_reads_shrink(
    nodes: Map<u32, NodeView>,
    key: VersionedGraphKey,
    kind: InvalidateKind,
    priority: InvalidationSourcePriority,
    p: u32,
    d: u32,
)
    requires
        reads(invalidated(nodes, key, kind, priority), p, d),
    ensures
        reads(nodes, p, d),
{
    if changes(nodes, key, kind) {
        let node = invalidated_node(nodes, key, kind, priority);
        let marked = nodes.insert(key.k.index, node);
        let after = invalidated(nodes, key, kind, priority);
        assert(after[p].deps() == marked[p].deps());
        if p == key.k.index {
            assert(node.deps().contains(DiceKey { index: d }));
            match kind {
                InvalidateKind::ForceDirty => {},
                InvalidateKind::Update(_, StorageType::Injected) => {
                    assert(node.deps() =~= Seq::<DiceKey>::empty());
                },
                InvalidateKind::Update(_, StorageType::Normal) => {
                    assert(node.deps() =~= Seq::<DiceKey>::empty());
                },
            }
        }
    }
}

/// What depends on a key where less is read depends on it where more is.
proof fn lemma_depends_grows(a: Map<u32, NodeView>, b: Map<u32, NodeView>, x: u32, k: u32)
    requires
        depends_on(a, x, k),
        forall|p: u32, d: u32| #[trigger] reads(a, p, d) ==> reads(b, p, d),
    ensures
        depends_on(b, x, k),
{
    let path = choose|path: Seq<u32>| #[trigger]
        chain(a, path) && path[0] == k && path.last() == x;
    assert forall|i: int| #![trigger path[i]] 1 <= i < path.len() implies reads(
        b,
        path[i],
        path[i - 1],
    ) by {
        assert(reads(a, path[i], path[i - 1]));
    }
    assert(chain(b, path));
}

/// One more reader at the end makes a chain longer.
proof fn lemma_chain_grows(nodes: Map<u32, NodeView>, x: u32, y: u32, k: u32)
    requires
        depends_on(nodes, y, k),
        reads(nodes, x, y),
    ensures
        depends_on(nodes, x, k),
{
    let path = choose|path: Seq<u32>| #[trigger]
        chain(nodes, path) && path[0] == k && path.last() == y;
    let longer = path.push(x);
    assert forall|i: int| #![trigger longer[i]] 1 <= i < longer.len() implies reads(
        nodes,
        longer[i],
        longer[i - 1],
    ) by {
        if i < path.len() {
            assert(reads(nodes, path[i], path[i - 1]));
        }
    }
    assert(chain(nodes, longer));
    assert(longer.last() == x);
}

/// Where some keys have changed what they read, a node that depended on a key still does, or
/// depended on one of those.
proof fn lemma_chain_or_affected(
    nodes: Map<u32, NodeView>,
    updates: Seq<(DiceKey, ChangeType, InvalidationSourcePriority)>,
    v: VersionNumber,
    k: u32,
    path: Seq<u32>,
)
    requires
        chain(nodes, path),
        path[0] == k,
        !is_changed(nodes, updates, v, path.last()),
        forall|p: u32, d: u32|
            !is_changed(nodes, updates, v, p) ==> (#[trigger] reads(nodes, p, d) <==> reads(
                changed(nodes, updates, v).0,
                p,
                d,
            )),
    ensures
        depends_on(changed(nodes, updates, v).0, path.last(), k) || is_affected(
            nodes,
            updates,
            v,
            path.last(),
        ),
    decreases path.len(),
{
    let after = changed(nodes, updates, v).0;
    let n = path.len() - 1;
    let (x, y) = (path[n], path[n - 1]);
    assert(reads(nodes, path[n], path[n - 1]));
    assert(reads(after, x, y));
    if n == 1 {
        assert(chain(after, seq![k, x]));
        assert(seq![k, x].last() == x);
    } else if is_changed(nodes, updates, v, y) {
        assert(chain(nodes, seq![y, x]));
        assert(seq![y, x].last() == x);
        assert(depends_on(nodes, x, y));
    } else {
        let front = path.drop_last();
        assert(chain(nodes, front)) by {
            assert forall|i: int| #![trigger front[i]] 1 <= i < front.len() implies reads(
                nodes,
                front[i],
                front[i - 1],
            ) by {
                assert(reads(nodes, path[i], path[i - 1]));
            }
        }
        lemma_chain_or_affected(nodes, updates, v, k, front);
        if depends_on(after, y, k) {
            lemma_chain_grows(after, x, y, k);
        } else {
            let z = choose|z: u32| #[trigger]
                is_changed(nodes, updates, v, z) && depends_on(nodes, y, z);
            lemma_chain_grows(nodes, x, y, z);
        }
    }
}

/// What several changes, made one after the other, do to all nodes but those that they change
/// themselves.
proof fn lemma_many_changes(
    nodes: Map<u32, NodeView>,
    updates: Seq<(DiceKey, ChangeType, InvalidationSourcePriority)>,
    v: VersionNumber,
)
    ensures
        forall|p: u32, d: u32| #[trigger]
            reads(changed(nodes, updates, v).0, p, d) ==> reads(nodes, p, d),
        forall|x: u32|
            #![trigger changed(nodes, updates, v).0.contains_key(x)]
            #![trigger is_changed(nodes, updates, v, x)]
            !is_changed(nodes, updates, v, x) ==> (changed(nodes, updates, v).0.contains_key(x)
                <==> nodes.contains_key(x)) && (nodes.contains_key(x) ==> changed(
                nodes,
                updates,
                v,
            ).0[x] == (if is_affected(nodes, updates, v, x) {
                nodes[x].dirty_from(v.number as int)
            } else {
                nodes[x]
            })),
    decreases updates.len(),
{
    let after = changed(nodes, updates, v).0;
    if updates.len() == 0 {
        assert forall|x: u32| !is_affected(nodes, updates, v, x) by {}
    } else {
        let n = updates.len() - 1;
        let front = updates.drop_last();
        let mid = changed(nodes, front, v).0;
        lemma_many_changes(nodes, front, v);
        let (last, change, priority) = updates[n];
        let key = VersionedGraphKey { v, k: last };
        assert(updates.take(n) =~= front);
        let effect = takes_effect(nodes, updates, v, n);
        assert(effect == changes(mid, key, change.kind()));
        assert(after == invalidated(mid, key, change.kind(), priority));
        assert forall|k: u32| #[trigger]
            is_changed(nodes, updates, v, k) <==> is_changed(nodes, front, v, k) || (effect && k
                == last.index) by {
            if is_changed(nodes, front, v, k) {
                let u = choose|u: int|
                    0 <= u < front.len() && front[u].0.index == k && #[trigger] takes_effect(
                        nodes,
                        front,
                        v,
                        u,
                    );
                assert(front.take(u) =~= updates.take(u));
                assert(takes_effect(nodes, updates, v, u));
            }
            if is_changed(nodes, updates, v, k) {
                let u = choose|u: int|
                    0 <= u < updates.len() && updates[u].0.index == k && #[trigger] takes_effect(
                        nodes,
                        updates,
                        v,
                        u,
                    );
                if u < n {
                    assert(front.take(u) =~= updates.take(u));
                    assert(takes_effect(nodes, front, v, u));
                }
            }
        }
        assert forall|p: u32, d: u32| #[trigger] reads(after, p, d) implies reads(nodes, p, d) by {
            lemma_reads_shrink(mid, key, change.kind(), priority, p, d);
        }
        assert forall|p: u32, d: u32| !is_changed(nodes, front, v, p) implies (#[trigger] reads(
            nodes,
            p,
            d,
        ) <==> reads(mid, p, d)) by {
            assert(mid.contains_key(p) <==> nodes.contains_key(p));
        }
        assert forall|x: u32|
            #![trigger after.contains_key(x)]
            #![trigger is_changed(nodes, updates, v, x)]
            !is_changed(nodes, updates, v, x) implies (after.contains_key(x) <==> nodes.contains_key(
            x,
        )) && (nodes.contains_key(x) ==> after[x] == (if is_affected(nodes, updates, v, x) {
            nodes[x].dirty_from(v.number as int)
        } else {
            nodes[x]
        })) by {
            assert(!is_changed(nodes, front, v, x));
            assert(mid.contains_key(x) <==> nodes.contains_key(x));
            if is_affected(nodes, front, v, x) {
                let k = choose|k: u32| #[trigger]
                    is_changed(nodes, front, v, k) && depends_on(nodes, x, k);
                assert(is_changed(nodes, updates, v, k));
            }
            if effect {
                assert(x != last.index) by {
                    assert(is_changed(nodes, updates, v, last.index));
                }
                law_invalidation_dirties_exactly_the_dependents(
                    mid,
                    key,
                    change.kind(),
                    priority,
                    x,
                );
                if depends_on(mid, x, last.index) {
                    lemma_depends_grows(mid, nodes, x, last.index);
                    assert(is_changed(nodes, updates, v, last.index));
                }
                if is_affected(nodes, updates, v, x) && !is_affected(nodes, front, v, x) {
                    let k = choose|k: u32| #[trigger]
                        is_changed(nodes, updates, v, k) && depends_on(nodes, x, k);
                    assert(k == last.index);
                    let path = choose|path: Seq<u32>| #[trigger]
                        chain(nodes, path) && path[0] == k && path.last() == x;
                    lemma_chain_or_affected(nodes, front, v, k, path);
                }
                if nodes.contains_key(x) {
                    let once = nodes[x].dirty_from(v.number as int);
                    assert(once.dirty_from(v.number as int) =~= once);
                }
            } else {
                assert(after == mid);
                if is_affected(nodes, updates, v, x) {
                    let k = choose|k: u32| #[trigger]
                        is_changed(nodes, updates, v, k) && depends_on(nodes, x, k);
                    assert(is_changed(nodes, front, v, k));
                }
            }
        }
    }
}

/// Several changes at once dirty, besides the keys that they change, exactly what depends on
/// one of those, and leave every other node as it was. A change that changes nothing has no
/// say.
pub proof fn law_changes_dirty_exactly_what_is_affected(
    nodes: Map<u32, NodeView>,
    updates: Seq<(DiceKey, ChangeType, InvalidationSourcePriority)>,
    v: VersionNumber,
    x: u32,
)
    requires
        !is_changed(nodes, updates, v, x),
    ensures
        changed(nodes, updates, v).0.contains_key(x) <==> nodes.contains_key(x),
        nodes.contains_key(x) ==> changed(nodes, updates, v).0[x] == (if is_affected(
            nodes,
            updates,
            v,
            x,
        ) {
            nodes[x].dirty_from(v.number as int)
        } else {
            nodes[x]
        }),
{
    lemma_many_changes(nodes, updates, v);
}

/// Giving an injected key a value that equals the one it had takes no effect, whatever else is
/// changed before, unless the key itself is.
pub proof fn law_an_equal_leaf_takes_no_effect(
    nodes: Map<u32, NodeView>,
    updates: Seq<(DiceKey, ChangeType, InvalidationSourcePriority)>,
    v: VersionNumber,
    u: int,
)
    requires
        0 <= u < updates.len(),
        nodes.contains_key(updates[u].0.index),
        nodes[updates[u].0.index] is Injected,
        updates[u].1 matches ChangeType::UpdateValue(value, StorageType::Injected)
            && nodes[updates[u].0.index]->values.last().1.class == value.class,
        !is_changed(nodes, updates.take(u), v, updates[u].0.index),
    ensures
        !takes_effect(nodes, updates, v, u),
{
    lemma_many_changes(nodes, updates.take(u), v);
}

/// After a snapshot was installed into an empty graph, changed leaves dirty exactly what
/// depends on them: a computed node of the snapshot that depends on none of them is found as the
/// snapshot has it, at every version, and one that does is not served from the new version on.
pub proof fn law_changed_leaves_after_a_load(
    new: Seq<(DiceKey, NodeView)>,
    i: int,
    updates: Seq<(DiceKey, ChangeType, InvalidationSourcePriority)>,
    v: VersionNumber,
    w: int,
)
    requires
        distinct_keys(new),
        0 <= i < new.len(),
        new[i].1 is Occupied,
        !is_changed(installed(Map::empty(), new), updates, v, new[i].0.index),
    ensures
        ({
            let loaded = installed(Map::empty(), new);
            let found = lookup(changed(loaded, updates, v).0, new[i].0, w);
            if !is_affected(loaded, updates, v, new[i].0.index) {
                found == known_at(new[i].1, w)
            } else {
                v.number <= w ==> !(found is Match) && !(found is Stored)
            }
        }),
{
    law_installed_nodes_are_found(new, new[i].0.index);
    law_changes_dirty_exactly_what_is_affected(
        installed(Map::empty(), new),
        updates,
        v,
        new[i].0.index,
    );
}

/// A warm start serves what was clean when the snapshot was taken: with the nodes of the
/// snapshot in an empty graph, giving the leaves the values that they had makes no new version,
/// and what was found at a version before is found there again.
pub proof fn law_warm_start_serves_what_was_clean(
    saved: Map<u32, NodeView>,
    new: Seq<(DiceKey, NodeView)>,
    i: int,
    updates: Seq<(DiceKey, ChangeType, InvalidationSourcePriority)>,
    next: VersionNumber,
    v: int,
)
    requires
        distinct_keys(new),
        0 <= i < new.len(),
        saved.contains_key(new[i].0.index),
        saved[new[i].0.index] is Occupied,
        new[i].1 is Occupied,
        new[i].1.deps() == saved[new[i].0.index].deps(),
        new[i].1->verified == saved[new[i].0.index]->verified,
        forall|a: int, b: int| #[trigger]
            new[i].1.history().separates(a, b) == saved[new[i].0.index].history().separates(a, b),
        lookup(saved, new[i].0, v) is Match || lookup(saved, new[i].0, v) is Stored,
        forall|u: int|
            #![trigger updates[u]]
            0 <= u < updates.len() ==> exists|j: int|
                #![trigger new[j]]
                0 <= j < new.len() && new[j].0 == updates[u].0 && new[j].1 is Injected && (
                updates[u].1 matches ChangeType::UpdateValue(value, StorageType::Injected)
                    && new[j].1->values.last().1.class == value.class),
    ensures
        changed(installed(Map::empty(), new), updates, next) == (
            installed(Map::empty(), new),
            false,
        ),
        lookup(installed(Map::empty(), new), new[i].0, v) is Match || lookup(
            installed(Map::empty(), new),
            new[i].0,
            v,
        ) is Stored,
{
    let nodes = installed(Map::empty(), new);
    law_installed_nodes_are_found(new, new[i].0.index);
    law_restored_node_is_as_good(saved[new[i].0.index], new[i].1, v);
    assert forall|u: int| #![trigger updates[u]] 0 <= u < updates.len() implies {
        let node = nodes[updates[u].0.index];
        &&& nodes.contains_key(updates[u].0.index)
        &&& node is Injected
        &&& updates[u].1 matches ChangeType::UpdateValue(value, StorageType::Injected)
            && node->values.last().1.class == value.class
    } by {
        let j = choose|j: int|
            #![trigger new[j]]
            0 <= j < new.len() && new[j].0 == updates[u].0 && new[j].1 is Injected && (
            updates[u].1 matches ChangeType::UpdateValue(value, StorageType::Injected)
                && new[j].1->values.last().1.class == value.class);
        law_installed_nodes_are_found(new, new[j].0.index);
    }
    law_unchanged_leaves_keep_the_version(nodes, updates, next);
}

/// Where the first of the changes is to a key that has no node yet, there is a change,
/// whatever else is changed with it.
pub proof fn law_changing_an_unknown_key_is_a_change(
    nodes: Map<u32, NodeView>,
    updates: Seq<(DiceKey, ChangeType, InvalidationSourcePriority)>,
    v: VersionNumber,
)
    requires
        updates.len() > 0,
        !nodes.contains_key(updates[0].0.index),
    ensures
        changed(nodes, updates, v).1,
    decreases updates.len(),
{
    if updates.len() > 1 {
        assert(updates.drop_last()[0] == updates[0]);
        law_changing_an_unknown_key_is_a_change(nodes, updates.drop_last(), v);
    } else {
        assert(changed(nodes, updates.drop_last(), v) == (nodes, false));
        assert(updates.last() == updates[0]);
    }
}

/// Evicting the allocation that a node holds moves its value to the store and changes nothing
/// else: at every version it is found there, with the versions that it holds at, where it was
/// found in memory, and is to be checked or computed where it was. Evicting another allocation
/// changes nothing.
pub proof fn law_an_evicted_value_is_found_in_the_store(
    nodes: Map<u32, NodeView>,
    k: DiceKey,
    data_key: DataKey,
    held: DiceValidValue,
    serialized: DiceValidValue,
    w: int,
)
    requires
        nodes.contains_key(k.index),
        nodes[k.index] matches NodeView::Occupied { value, .. } && (value == PagableNodeValue::Fresh(
            held,
        ) || value == PagableNodeValue::Recomputed(held) || value == PagableNodeValue::NonPageable(
            held,
        )),
    ensures
        ({
            let after = evicted(nodes, seq![(k, data_key, serialized)]);
            if serialized.allocation == held.allocation {
                match lookup(nodes, k, w) {
                    LookupView::Match { valid, .. } => lookup(
                        after,
                        k,
                        w,
                    ) matches LookupView::Stored { data_key: found, valid: versions, .. } && found
                        == data_key && versions == valid,
                    LookupView::CheckDeps { prev_verified_version, deps, .. } => lookup(
                        after,
                        k,
                        w,
                    ) matches LookupView::CheckDeps {
                        prev_verified_version: prev,
                        deps: read,
                        kept,
                    } && prev == prev_verified_version && read == deps && kept
                        == PagableNodeValue::PagedOut(data_key),
                    LookupView::Compute => lookup(after, k, w) == LookupView::Compute,
                    LookupView::Stored { .. } => false,
                }
            } else {
                after == nodes
            }
        }),
{
    let keys = seq![(k, data_key, serialized)];
    assert(keys.drop_last() =~= Seq::empty());
    assert(evicted(nodes, keys.drop_last()) == nodes);
    assert(keys.last() == (k, data_key, serialized));
    let after = evicted(nodes, keys);
    if serialized.allocation != held.allocation {
        assert(after =~= nodes);
    }
}

/// A value that is read back from the store is found in memory wherever it was found in the store;
/// one that is in memory already is left alone.
pub proof fn law_a_value_read_back_is_found_in_memory(
    nodes: Map<u32, NodeView>,
    k: DiceKey,
    value: DiceValidValue,
    w: int,
)
    requires
        nodes.contains_key(k.index),
        nodes[k.index] is Occupied,
    ensures
        ({
            let after = kept_as(nodes, k, |kept: PagableNodeValue| kept.paged_in(value));
            match lookup(nodes, k, w) {
                LookupView::Stored { valid, .. } => lookup(after, k, w) matches LookupView::Match {
                    value: found,
                    valid: versions,
                    ..
                } && found == value && versions == valid,
                LookupView::Match { .. } => lookup(after, k, w) == lookup(nodes, k, w),
                LookupView::CheckDeps { .. } => lookup(after, k, w) is CheckDeps,
                LookupView::Compute => lookup(after, k, w) is Compute,
            }
        }),
{
}

} // verus!
