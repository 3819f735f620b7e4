use std::collections::HashSet;

use dice_state::core_state::{ChangeType, CoreState, DiceTask, PersistNodeExtract};
use dice_state::core_state::{PersistValueExtract, TransactionCancelled};
use dice_state::force_dirty::{ForceDirtyHistory, InvalidationSourcePriority};
use dice_state::graph_types::{
    StorageType, ValueReusable, VersionedGraphKey, VersionedGraphResult,
};
use dice_state::nodes::{
    InjectedGraphNode, OccupiedGraphNode, VacantGraphNode, VersionedGraphNode,
};
use dice_state::pressure::{collect_referenced_keys, CachedTask};
use dice_state::tracker::VersionEpoch;
use dice_state::value::{
    DataKey, DiceComputedValue, DiceKey, DiceValidValue, PagableNodeValue,
    TrackedInvalidationPaths,
};
use dice_state::versions::{VersionNumber, VersionRange, VersionRanges};

fn key(index: u32) -> DiceKey {
    DiceKey { index }
}

fn compute(
    core: &mut CoreState,
    epoch: VersionEpoch,
    v: VersionNumber,
    k: DiceKey,
    value: DiceValidValue,
    deps: Vec<DiceKey>,
) -> Result<DiceComputedValue, TransactionCancelled> {
    core.update_computed(
        VersionedGraphKey::new(v, k),
        epoch,
        StorageType::Normal,
        value,
        ValueReusable::EqualityBased,
        deps,
        TrackedInvalidationPaths::clean(),
    )
}

fn inject(core: &mut CoreState, leaves: &[(u32, DiceValidValue)]) -> VersionNumber {
    let updates = leaves
        .iter()
        .map(|(k, v)| {
            (
                key(*k),
                ChangeType::UpdateValue(*v, StorageType::Injected),
                InvalidationSourcePriority::Normal,
            )
        })
        .collect();
    core.update_state(&updates)
}

fn candidates(core: &CoreState) -> Vec<u32> {
    core.keys_to_page_out().into_iter().map(|(k, _)| k.index).collect()
}

fn evicts_only_matching_values() {
    let mut core = CoreState::new();
    let v = VersionNumber::first();
    let (epoch, _ctx) = core.ctx_at_version(v);
    let k = key(0);
    let value = DiceValidValue::new(1, 1);
    compute(&mut core, epoch, v, k, value, vec![]).unwrap();

    // The same contents in another allocation: a recompute that landed between
    // serialization and the eviction.
    let stale = DiceValidValue::new(2, 1);
    core.evict_keys(&vec![(k, DataKey { id: 1 }, stale)]);
    let status = core.pagable_status();
    assert_eq!(
        (status.resident.len(), status.paged_out.len()),
        (1, 0),
        "stale-value eviction must be skipped"
    );

    core.evict_keys(&vec![(k, DataKey { id: 1 }, value)]);
    let status = core.pagable_status();
    assert_eq!(
        (status.resident.len(), status.paged_out.len()),
        (0, 1),
        "matching-value eviction pages out"
    );
}

#[test]
fn internals_evict_keys_skips_nodes_holding_a_different_value() {
    evicts_only_matching_values();
}

#[test]
fn pressure_tests_evict_keys_skips_nodes_holding_a_different_value() {
    evicts_only_matching_values();
}

fn spares_pinned_and_pending() {
    let mut core = CoreState::new();
    let v = VersionNumber::first();
    let (epoch, cache) = core.ctx_at_version(v);
    let dep = key(1);
    let parent = key(2);
    compute(&mut core, epoch, v, dep, DiceValidValue::new(1, 1), vec![]).unwrap();
    // Records that parent read dep.
    compute(&mut core, epoch, v, parent, DiceValidValue::new(2, 2), vec![dep]).unwrap();

    // A pending task for `parent` in the active cache: `parent` is referenced,
    // and `dep` has a pending reader - both must be excluded.
    let tasks = vec![CachedTask { key: parent, pending: true }];
    let collect = |core: &CoreState| {
        let mut referenced = HashSet::new();
        let mut pending = HashSet::new();
        for c in core.active_caches() {
            if c.ptr_eq(&cache) {
                collect_referenced_keys(&tasks, &mut referenced, &mut pending);
            }
        }
        (referenced, pending)
    };

    let (referenced, pending) = collect(&core);
    assert!(
        core.pressure_eviction_candidates(&referenced, &pending).is_empty(),
        "pinned value and pending-rdep dep must both be excluded"
    );

    // Transaction gone: both become candidates.
    core.drop_ctx_at_version(v);
    let (referenced, pending) = collect(&core);
    let mut keys: Vec<_> = core
        .pressure_eviction_candidates(&referenced, &pending)
        .iter()
        .map(|c| c.key.index)
        .collect();
    keys.sort_unstable();
    assert_eq!(keys, vec![1, 2]);
}

#[test]
fn internals_pressure_candidates_exclude_pinned_and_pending_rdeps() {
    spares_pinned_and_pending();
}

#[test]
fn pressure_tests_pressure_candidates_exclude_pinned_and_pending_rdeps() {
    spares_pinned_and_pending();
}

#[test]
fn update_state_gets_next_version() {
    let mut core = CoreState::new();

    assert_eq!(
        core.update_state(&vec![(
            DiceKey { index: 0 },
            ChangeType::Invalidate,
            InvalidationSourcePriority::Normal
        )]),
        VersionNumber::new(2)
    );

    assert_eq!(
        core.update_state(&vec![(
            DiceKey { index: 1 },
            ChangeType::Invalidate,
            InvalidationSourcePriority::Normal
        )]),
        VersionNumber::new(3)
    );
}

#[test]
fn state_ctx_at_version() {
    let mut core = CoreState::new();
    let v = VersionNumber::new(1);

    let (epoch, ctx) = core.ctx_at_version(v);

    let (epoch1, ctx1) = core.ctx_at_version(v);
    assert!(ctx.ptr_eq(&ctx1));
    assert_eq!(epoch, epoch1);

    // if you drop one, there is still reference so getting the same version should give the
    // same instance of ctx
    core.drop_ctx_at_version(v);
    let (epoch2, ctx2) = core.ctx_at_version(v);
    assert!(ctx.ptr_eq(&ctx2));
    assert_eq!(epoch1, epoch2);

    // drop all references, should give a different ctx instance
    core.drop_ctx_at_version(v);
    core.drop_ctx_at_version(v);
    let (another_epoch, another) = core.ctx_at_version(v);
    assert!(!ctx.ptr_eq(&another));
    assert_ne!(another_epoch, epoch);
}

#[test]
fn non_pageable_nodes_are_not_page_out_candidates() {
    let mut core = CoreState::new();
    let v = VersionNumber::first();
    let (epoch, _ctx) = core.ctx_at_version(v);

    let mut compute_index = |core: &mut CoreState, index: u32| {
        let res = compute(
            core,
            epoch,
            v,
            DiceKey { index },
            DiceValidValue::new(index as u64, index as u64),
            vec![],
        );
        assert!(res.is_ok());
    };
    compute_index(&mut core, 0);
    compute_index(&mut core, 1);

    // Both freshly-computed resident values are page-out candidates.
    assert_eq!(candidates(&core), vec![0, 1]);

    // Marking one non-pageable (its value can't be serialized) drops it from
    // the candidate set, so page-out won't keep retrying it; the other is
    // unaffected.
    core.mark_non_pageable(&vec![DiceKey { index: 0 }]);
    assert_eq!(candidates(&core), vec![1]);
}

#[test]
fn non_pageable_survives_a_recompute() {
    let mut core = CoreState::new();
    let v = VersionNumber::first();
    let (epoch, _) = core.ctx_at_version(v);
    compute(&mut core, epoch, v, key(0), DiceValidValue::new(1, 1), vec![]).unwrap();
    core.mark_non_pageable(&vec![key(0), key(9)]);
    compute(&mut core, epoch, v, key(0), DiceValidValue::new(2, 2), vec![]).unwrap();
    assert_eq!(candidates(&core), Vec::<u32>::new());
    assert_eq!(core.pagable_node_counts().resident, 1);
}

#[test]
fn a_value_is_paged_out_at_most_once() {
    let mut core = CoreState::new();
    let v = VersionNumber::first();
    let (epoch, _) = core.ctx_at_version(v);
    let value = DiceValidValue::new(1, 1);
    compute(&mut core, epoch, v, key(0), value, vec![]).unwrap();
    core.evict_keys(&vec![(key(0), DataKey { id: 5 }, value)]);
    assert_eq!(core.paged_out_keys(), vec![(key(0), DataKey { id: 5 })]);

    core.rehydrate(key(0), DiceValidValue::new(7, 1));
    assert_eq!(core.paged_out_keys(), vec![]);
    assert_eq!(candidates(&core), Vec::<u32>::new());

    // Already in memory: left alone.
    core.rehydrate(key(0), DiceValidValue::new(8, 1));
    let found = core.lookup_key(VersionedGraphKey::new(v, key(0)));
    assert!(matches!(found, VersionedGraphResult::Match(c) if c.value.allocation == 7));
}

#[test]
fn counts_follow_the_lists() {
    let mut core = CoreState::new();
    let v = VersionNumber::first();
    let (epoch, _) = core.ctx_at_version(v);
    for i in 0..5 {
        let value = DiceValidValue::new(i as u64, i as u64);
        compute(&mut core, epoch, v, key(i), value, vec![]).unwrap();
    }
    core.evict_keys(&vec![
        (key(1), DataKey { id: 1 }, DiceValidValue::new(1, 1)),
        (key(3), DataKey { id: 3 }, DiceValidValue::new(3, 3)),
        (key(77), DataKey { id: 7 }, DiceValidValue::new(3, 3)),
    ]);
    core.mark_non_pageable(&vec![key(4)]);
    core.update_state(&vec![(
        key(50),
        ChangeType::Invalidate,
        InvalidationSourcePriority::High,
    )]);
    let status = core.pagable_status();
    assert_eq!(status.total_nodes, 6);
    assert_eq!(status.counts, core.pagable_node_counts());
    assert_eq!(status.counts.resident, 3);
    assert_eq!(status.counts.paged_out, 2);
    assert_eq!(status.counts.candidates, 2);
    assert_eq!(status.resident, vec![key(0), key(2), key(4)]);
    assert_eq!(status.paged_out, vec![key(1), key(3)]);
    assert_eq!(candidates(&core), vec![0, 2]);
}

#[test]
fn paging_out_what_is_offered_leaves_nothing_to_offer() {
    let mut core = CoreState::new();
    let v = VersionNumber::first();
    let (epoch, _) = core.ctx_at_version(v);
    for i in 0..3 {
        let value = DiceValidValue::new(10 + i as u64, i as u64);
        compute(&mut core, epoch, v, key(i), value, vec![]).unwrap();
    }
    let batch = core
        .keys_to_page_out()
        .into_iter()
        .map(|(k, value)| (k, DataKey { id: k.index as u128 }, value))
        .collect();
    core.evict_keys(&batch);
    assert_eq!(candidates(&core), Vec::<u32>::new());
    assert_eq!(core.pagable_node_counts().paged_out, 3);
}

#[test]
fn a_changed_leaf_dirties_exactly_its_dependents() {
    let mut core = CoreState::new();
    let v = inject(&mut core, &[(1, DiceValidValue::new(1, 5)), (2, DiceValidValue::new(2, 7))]);
    assert_eq!(v, VersionNumber::new(2));
    let (epoch, _) = core.ctx_at_version(v);
    compute(&mut core, epoch, v, key(11), DiceValidValue::new(11, 50), vec![key(1)]).unwrap();
    compute(&mut core, epoch, v, key(12), DiceValidValue::new(12, 70), vec![key(2)]).unwrap();
    compute(&mut core, epoch, v, key(21), DiceValidValue::new(21, 51), vec![key(11)]).unwrap();

    let w = inject(&mut core, &[(1, DiceValidValue::new(3, 6)), (2, DiceValidValue::new(4, 7))]);
    assert_eq!(w, VersionNumber::new(3));
    for k in [11, 21] {
        match core.lookup_key(VersionedGraphKey::new(w, key(k))) {
            VersionedGraphResult::CheckDeps { prev_verified_version, deps, .. } => {
                assert_eq!(prev_verified_version, v);
                assert_eq!(deps.len(), 1);
            }
            other => panic!("unexpected {:?}", other),
        }
    }
    // The other subtree is served, and so is the past.
    for (k, at, allocation) in [(12, w, 12), (11, v, 11), (21, v, 21)] {
        match core.lookup_key(VersionedGraphKey::new(at, key(k))) {
            VersionedGraphResult::Match(c) => assert_eq!(c.value.allocation, allocation),
            other => panic!("unexpected {:?}", other),
        }
    }
}

#[test]
fn unchanged_leaves_keep_the_version() {
    let mut core = CoreState::new();
    let v = inject(&mut core, &[(1, DiceValidValue::new(1, 5))]);
    let again = inject(&mut core, &[(1, DiceValidValue::new(9, 5))]);
    assert_eq!(again, v);
    assert_eq!(core.current_version(), v);
    // The value that was there first is kept.
    match core.lookup_key(VersionedGraphKey::new(v, key(1))) {
        VersionedGraphResult::Match(c) => assert_eq!(c.value.allocation, 1),
        other => panic!("unexpected {:?}", other),
    }
    // Nothing at all is no change either.
    assert_eq!(core.update_state(&vec![]), v);
}

#[test]
fn forced_dirt_has_to_be_computed_and_is_not_forgotten() {
    let mut core = CoreState::new();
    let v1 = VersionNumber::first();
    let (epoch, _) = core.ctx_at_version(v1);
    compute(&mut core, epoch, v1, key(0), DiceValidValue::new(1, 1), vec![]).unwrap();
    let v2 = core.update_state(&vec![(
        key(0),
        ChangeType::Invalidate,
        InvalidationSourcePriority::Normal,
    )]);
    assert_eq!(v2, VersionNumber::new(2));
    let at = |core: &CoreState, v: u64| {
        core.lookup_key(VersionedGraphKey::new(VersionNumber::new(v), key(0)))
    };
    assert!(matches!(at(&core, 2), VersionedGraphResult::Compute));
    assert!(matches!(at(&core, 1), VersionedGraphResult::Match(_)));
    // A late compute at the earlier version does not make it valid again.
    compute(&mut core, epoch, v1, key(0), DiceValidValue::new(2, 1), vec![]).unwrap();
    assert!(matches!(at(&core, 2), VersionedGraphResult::Compute));
    assert!(matches!(at(&core, 3), VersionedGraphResult::Compute));
    // A compute at the new version does.
    let (epoch2, _) = core.ctx_at_version(v2);
    compute(&mut core, epoch2, v2, key(0), DiceValidValue::new(3, 9), vec![]).unwrap();
    match at(&core, 3) {
        VersionedGraphResult::Match(c) => {
            assert_eq!(c.value.allocation, 3);
            assert!(!c.valid.contains(v1));
        }
        other => panic!("unexpected {:?}", other),
    }
    // The same key twice in one change is one change.
    let invalidate = (key(0), ChangeType::Invalidate, InvalidationSourcePriority::Normal);
    assert_eq!(core.update_state(&vec![invalidate, invalidate]), VersionNumber::new(3));
}

#[test]
fn equal_values_are_kept_and_others_replaced() {
    let mut core = CoreState::new();
    let v1 = VersionNumber::first();
    let (epoch, _) = core.ctx_at_version(v1);
    compute(&mut core, epoch, v1, key(0), DiceValidValue::new(1, 1), vec![]).unwrap();
    let kept = compute(&mut core, epoch, v1, key(0), DiceValidValue::new(2, 1), vec![]).unwrap();
    assert_eq!(kept.value.allocation, 1);
    let replaced =
        compute(&mut core, epoch, v1, key(0), DiceValidValue::new(3, 2), vec![]).unwrap();
    assert_eq!(replaced.value.allocation, 3);

    let reused = core
        .update_computed(
            VersionedGraphKey::new(v1, key(0)),
            epoch,
            StorageType::Normal,
            DiceValidValue::new(4, 9),
            ValueReusable::VersionBased(v1),
            vec![],
            TrackedInvalidationPaths { normal: Some(v1), high: None },
        )
        .unwrap();
    assert_eq!(reused.value.allocation, 3);
    assert_eq!(reused.paths.normal, Some(v1));
}

#[test]
fn what_an_ended_transaction_computed_is_cancelled() {
    let mut core = CoreState::new();
    let v = VersionNumber::first();
    let (epoch, cache) = core.ctx_at_version(v);
    assert_eq!(core.drop_ctx_at_version(v), Some(cache));
    assert_eq!(core.drop_ctx_at_version(v), None);
    let late = compute(&mut core, epoch, v, key(0), DiceValidValue::new(1, 1), vec![]);
    assert_eq!(late, Err(TransactionCancelled {}));
    assert_eq!(core.metrics().key_count, 0);

    let (_epoch, _) = core.ctx_at_version(v);
    let stale = compute(&mut core, epoch, v, key(0), DiceValidValue::new(1, 1), vec![]);
    assert_eq!(stale, Err(TransactionCancelled {}));
}

#[test]
fn cancelled_tasks_are_tracked_until_they_end() {
    let mut core = CoreState::new();
    let v = VersionNumber::new(1);
    let (_, cache) = core.ctx_at_version(v);
    assert_eq!(core.drop_ctx_at_version(v), Some(cache));
    let pending: Vec<DiceTask> = [50, 60, 100500].iter().map(|id| DiceTask { id: *id }).collect();
    core.record_cancelled_tasks(&HashSet::new(), &pending);

    let still: HashSet<u64> = [50, 60, 100500].into_iter().collect();
    assert_eq!(core.get_tasks_pending_cancellation(&still).len(), 3);

    let still: HashSet<u64> = [100500].into_iter().collect();
    core.record_cancelled_tasks(&still, &vec![DiceTask { id: 300 }]);
    let still: HashSet<u64> = [100500, 300].into_iter().collect();
    assert_eq!(
        core.get_tasks_pending_cancellation(&still),
        vec![DiceTask { id: 100500 }, DiceTask { id: 300 }]
    );
}

#[test]
fn snapshot_goes_into_another_state() {
    let mut core = CoreState::new();
    let v = inject(&mut core, &[(1, DiceValidValue::new(1, 5)), (2, DiceValidValue::new(2, 7))]);
    let (epoch, _) = core.ctx_at_version(v);
    let value = DiceValidValue::new(11, 50);
    compute(&mut core, epoch, v, key(11), value, vec![key(1)]).unwrap();
    compute(&mut core, epoch, v, key(12), DiceValidValue::new(12, 70), vec![key(2)]).unwrap();
    core.evict_keys(&vec![(key(11), DataKey { id: 4 }, value)]);
    // A key without a value stays behind.
    core.update_state(&vec![(
        key(99),
        ChangeType::Invalidate,
        InvalidationSourcePriority::Normal,
    )]);

    let (at, extracts) = core.persist_extract();
    assert_eq!(at, VersionNumber::new(3));
    assert_eq!(extracts.len(), 4);
    assert!(matches!(
        &extracts[2],
        PersistNodeExtract::Occupied { key: DiceKey { index: 11 }, value, deps, .. }
            if *value == PersistValueExtract::Paged(DataKey { id: 4 }) && deps == &vec![key(1)]
    ));
    assert!(matches!(
        &extracts[3],
        PersistNodeExtract::Occupied { key: DiceKey { index: 12 }, value, .. }
            if *value == PersistValueExtract::Hydrated(DiceValidValue::new(12, 70))
    ));

    let nodes = extracts
        .into_iter()
        .map(|extract| match extract {
            PersistNodeExtract::Occupied { key, deps, verified_ranges, dirtied_history, .. } => (
                key,
                VersionedGraphNode::Occupied(OccupiedGraphNode {
                    value: PagableNodeValue::PagedOut(DataKey { id: key.index as u128 }),
                    deps,
                    verified: verified_ranges,
                    dirtied: dirtied_history,
                    paths: TrackedInvalidationPaths::clean(),
                }),
            ),
            PersistNodeExtract::Injected { key, first_valid_version, value } => (
                key,
                VersionedGraphNode::Injected(InjectedGraphNode {
                    values: vec![(first_valid_version, value)],
                }),
            ),
        })
        .collect();
    let mut fresh = CoreState::new();
    fresh.persist_install(nodes, at);
    assert_eq!(fresh.current_version(), at);
    let (again, same) = fresh.persist_extract();
    assert_eq!(again, at);
    assert_eq!(same.len(), 4);

    // The same leaves: nothing changes, and what was computed is served.
    let now =
        inject(&mut fresh, &[(1, DiceValidValue::new(21, 5)), (2, DiceValidValue::new(22, 7))]);
    assert_eq!(now, at);
    for k in [11, 12] {
        assert!(matches!(
            fresh.lookup_key(VersionedGraphKey::new(now, key(k))),
            VersionedGraphResult::Stored { .. }
        ));
    }
    // One leaf changes: only what read it has to be checked. Who read it was derived anew.
    let now = inject(&mut fresh, &[(1, DiceValidValue::new(31, 6))]);
    assert_eq!(now, VersionNumber::new(4));
    assert!(matches!(
        fresh.lookup_key(VersionedGraphKey::new(now, key(11))),
        VersionedGraphResult::CheckDeps { .. }
    ));
    assert!(matches!(
        fresh.lookup_key(VersionedGraphKey::new(now, key(12))),
        VersionedGraphResult::Stored { .. }
    ));
}

#[test]
fn vacant_nodes_are_installed_too() {
    let mut core = CoreState::new();
    let mut dirtied = ForceDirtyHistory::new();
    dirtied.force_dirty(VersionNumber::new(4), InvalidationSourcePriority::High);
    core.persist_install(
        vec![(key(7), VersionedGraphNode::Vacant(VacantGraphNode { dirtied, deps: vec![] }))],
        VersionNumber::new(9),
    );
    assert_eq!(core.metrics().key_count, 1);
    assert_eq!(core.persist_extract().1, vec![]);
    let (epoch, _) = core.ctx_at_version(VersionNumber::new(9));
    let done = compute(
        &mut core,
        epoch,
        VersionNumber::new(9),
        key(7),
        DiceValidValue::new(1, 1),
        vec![],
    )
    .unwrap();
    assert!(!done.valid.contains(VersionNumber::new(3)));
    assert!(done.valid.contains(VersionNumber::new(4)));
}

#[test]
fn a_node_is_as_cold_as_its_last_run_of_versions() {
    let mut core = CoreState::new();
    let mut verified = VersionRanges::new();
    verified.insert(VersionRange::bounded(VersionNumber::new(2), VersionNumber::new(5)));
    verified.insert(VersionRange::bounded(VersionNumber::new(8), VersionNumber::new(9)));
    core.persist_install(
        vec![(
            key(3),
            VersionedGraphNode::Occupied(OccupiedGraphNode {
                value: PagableNodeValue::Fresh(DiceValidValue::new(1, 1)),
                deps: vec![],
                verified,
                dirtied: ForceDirtyHistory::new(),
                paths: TrackedInvalidationPaths::clean(),
            }),
        )],
        VersionNumber::new(9),
    );
    let found = core.pressure_eviction_candidates(&HashSet::new(), &HashSet::new());
    assert_eq!(found.len(), 1);
    assert_eq!(found[0].last_verified_begin, VersionNumber::new(8));
}

#[test]
fn values_can_be_given_to_computed_keys() {
    let mut core = CoreState::new();
    let set = |core: &mut CoreState, value: DiceValidValue| {
        core.update_state(&vec![(
            key(1),
            ChangeType::UpdateValue(value, StorageType::Normal),
            InvalidationSourcePriority::Normal,
        )])
    };
    assert_eq!(set(&mut core, DiceValidValue::new(1, 1)), VersionNumber::new(2));
    assert_eq!(set(&mut core, DiceValidValue::new(2, 1)), VersionNumber::new(2));
    assert_eq!(set(&mut core, DiceValidValue::new(3, 2)), VersionNumber::new(3));
    match core.lookup_key(VersionedGraphKey::new(VersionNumber::new(3), key(1))) {
        VersionedGraphResult::Match(c) => assert_eq!(c.value.allocation, 3),
        other => panic!("unexpected {:?}", other),
    }
}

#[test]
fn injected_values_hold_until_the_next_one() {
    let mut core = CoreState::new();
    inject(&mut core, &[(1, DiceValidValue::new(1, 5))]);
    inject(&mut core, &[(1, DiceValidValue::new(2, 6))]);
    let at = |v: u64| core.lookup_key(VersionedGraphKey::new(VersionNumber::new(v), key(1)));
    assert!(matches!(at(1), VersionedGraphResult::Compute));
    match at(2) {
        VersionedGraphResult::Match(c) => {
            assert_eq!(c.value.allocation, 1);
            assert!(!c.valid.contains(VersionNumber::new(3)));
        }
        other => panic!("unexpected {:?}", other),
    }
    match at(30) {
        VersionedGraphResult::Match(c) => assert_eq!(c.value.allocation, 2),
        other => panic!("unexpected {:?}", other),
    }
    // Forcing an injected key dirty changes nothing: its values are given.
    assert_eq!(
        core.update_state(&vec![(
            key(1),
            ChangeType::Invalidate,
            InvalidationSourcePriority::Normal,
        )]),
        VersionNumber::new(3)
    );
}

#[test]
fn dropping_everything_keeps_the_numbering() {
    let mut core = CoreState::new();
    inject(&mut core, &[(1, DiceValidValue::new(1, 5))]);
    core.ctx_at_version(VersionNumber::new(2));
    core.ctx_at_version(VersionNumber::new(2));
    core.ctx_at_version(VersionNumber::new(1));
    assert_eq!(core.metrics().active_transaction_count, 3);
    assert_eq!(core.metrics().key_count, 1);
    let (graph, versions) = core.introspection();
    assert_eq!(graph.nodes.len(), 1);
    assert_eq!(versions.versions, vec![(VersionNumber::new(2), 2), (VersionNumber::new(1), 1)]);
    core.unstable_drop_everything();
    assert_eq!(core.metrics().active_transaction_count, 0);
    assert_eq!(core.metrics().key_count, 0);
    assert_eq!(core.current_version(), VersionNumber::new(2));
    assert_eq!(core.active_caches(), vec![]);
}

#[test]
fn an_outside_value_can_be_recorded_by_a_computation() {
    let mut core = CoreState::new();
    let v = VersionNumber::first();
    let (epoch, _) = core.ctx_at_version(v);
    let done = core
        .update_computed(
            VersionedGraphKey::new(v, key(1)),
            epoch,
            StorageType::Injected,
            DiceValidValue::new(1, 5),
            ValueReusable::EqualityBased,
            vec![],
            TrackedInvalidationPaths::clean(),
        )
        .unwrap();
    assert!(done.valid.contains(VersionNumber::new(1000)));
    assert!(!done.valid.contains(VersionNumber::new(0)));
    let (graph, _) = core.introspection();
    assert_eq!(graph.nodes[0].deps, vec![]);
}
