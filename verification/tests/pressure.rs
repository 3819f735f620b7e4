use std::collections::HashSet;

use dice_state::core_state::{CoreState, PressureCandidate};
use dice_state::graph_types::{
    StorageType, ValueReusable, VersionedGraphKey, VersionedGraphResult,
};
use dice_state::pressure::{
    collect_referenced_keys, plan_eviction, CachedTask, Dice, EvictionPlan, PressureEvictStats,
    PressureReply, PressureRequest,
};
use dice_state::value::{DataKey, DiceKey, DiceValidValue, TrackedInvalidationPaths};
use dice_state::versions::VersionNumber;

const PAGABLE_KEY: &str = "PagableKey";
const PAGABLE_KEY_B: &str = "PagableKeyB";

fn allow(types: &[&str]) -> Vec<String> {
    types.iter().map(|s| (*s).to_owned()).collect()
}

fn make_dice(key_types: &[&str]) -> Dice {
    Dice { state: CoreState::new(), key_types: allow(key_types), pagable_storage: true }
}

/// Computes keys in a transaction, one allocation each.
fn compute(dice: &mut Dice, keys: &[u32]) -> VersionNumber {
    let v = dice.state.current_version();
    let (epoch, _) = dice.state.ctx_at_version(v);
    for k in keys {
        let value = DiceValidValue::new(100 + *k as u64, *k as u64);
        dice.state
            .update_computed(
                VersionedGraphKey::new(v, DiceKey { index: *k }),
                epoch,
                StorageType::Normal,
                value,
                ValueReusable::EqualityBased,
                vec![],
                TrackedInvalidationPaths::clean(),
            )
            .unwrap();
    }
    v
}

/// Plans with what the given tasks of live transactions reference, and carries the plan out.
fn evict(
    dice: &mut Dice,
    tasks: &Vec<CachedTask>,
    max: usize,
    types: &[&str],
) -> PressureEvictStats {
    let mut referenced = HashSet::new();
    let mut pending = HashSet::new();
    collect_referenced_keys(tasks, &mut referenced, &mut pending);
    let plan = dice.evict_under_pressure(&referenced, &pending, max, &allow(types));
    for batch in &plan.batches {
        let stored = batch
            .iter()
            .map(|(k, value)| (*k, DataKey { id: k.index as u128 }, *value))
            .collect();
        dice.state.evict_keys(&stored);
    }
    plan.stats
}

#[test]
fn evict_under_pressure_pages_out_cold_values() {
    let mut dice = make_dice(&["", PAGABLE_KEY, PAGABLE_KEY]);
    let v = compute(&mut dice, &[1, 2]);
    dice.state.drop_ctx_at_version(v);

    let stats = evict(&mut dice, &vec![], usize::MAX, &[PAGABLE_KEY]);
    assert_eq!(stats.candidates, 2);
    assert_eq!(stats.selected, 2);
    assert_eq!(dice.state.pagable_node_counts().paged_out, 2);

    // The value is read back, not recomputed.
    let found = dice.state.lookup_key(VersionedGraphKey::new(v, DiceKey { index: 1 }));
    assert!(
        matches!(found, VersionedGraphResult::Stored { data_key: DataKey { id: 1 }, .. }),
        "lookup should hydrate, not recompute"
    );
}

#[test]
fn evict_under_pressure_skips_values_pinned_by_live_transaction() {
    let mut dice = make_dice(&["", PAGABLE_KEY]);
    let v = compute(&mut dice, &[1]);

    let task = CachedTask { key: DiceKey { index: 1 }, pending: false };
    let stats = evict(&mut dice, &vec![task], usize::MAX, &[PAGABLE_KEY]);
    assert_eq!(stats.candidates, 0, "pinned value must not be a candidate");
    let status = dice.state.pagable_node_counts();
    assert_eq!(status.resident, 1);
    assert_eq!(status.paged_out, 0);

    dice.state.drop_ctx_at_version(v);

    let stats = evict(&mut dice, &vec![], usize::MAX, &[PAGABLE_KEY]);
    assert_eq!(stats.selected, 1, "unpinned after the transaction dropped");
    assert_eq!(dice.state.pagable_node_counts().paged_out, 1);
}

#[test]
fn evict_under_pressure_respects_key_type_allowlist() {
    let mut dice = make_dice(&["", PAGABLE_KEY, PAGABLE_KEY_B]);
    let v = compute(&mut dice, &[1, 2]);
    dice.state.drop_ctx_at_version(v);

    let stats = evict(&mut dice, &vec![], usize::MAX, &[PAGABLE_KEY]);
    assert_eq!(stats.candidates, 1);
    assert_eq!(stats.selected, 1);

    let paged: Vec<u32> =
        dice.state.paged_out_keys().into_iter().map(|(k, _)| k.index).collect();
    assert_eq!(paged, vec![1], "not on the allowlist");
}

#[test]
fn evict_under_pressure_max_values_bounds_selection() {
    let mut dice = make_dice(&[PAGABLE_KEY, PAGABLE_KEY, PAGABLE_KEY, PAGABLE_KEY]);
    let v = compute(&mut dice, &[0, 1, 2, 3]);
    dice.state.drop_ctx_at_version(v);

    let stats = evict(&mut dice, &vec![], 1, &[PAGABLE_KEY]);
    assert_eq!(stats.candidates, 4);
    assert_eq!(stats.selected, 1, "chunk of 1 selects a single value");
    assert_eq!(dice.state.pagable_node_counts().paged_out, 1);
}

#[test]
fn evict_under_pressure_skips_a_value_paged_in_again() {
    let mut dice = make_dice(&["", PAGABLE_KEY]);
    let v = compute(&mut dice, &[1]);
    dice.state.drop_ctx_at_version(v);
    let all = dice
        .state
        .keys_to_page_out()
        .into_iter()
        .map(|(k, value)| (k, DataKey { id: 1 }, value))
        .collect();
    dice.state.evict_keys(&all);
    dice.state.rehydrate(DiceKey { index: 1 }, DiceValidValue::new(5, 1));

    let stats = evict(&mut dice, &vec![], usize::MAX, &[PAGABLE_KEY]);
    assert_eq!(
        (stats.candidates, stats.selected),
        (0, 0),
        "a value that has been paged out once is never offered again"
    );
    assert_eq!(dice.state.pagable_node_counts().paged_out, 0);
}

#[test]
fn evict_under_pressure_without_storage_is_noop() {
    let mut dice = make_dice(&["", PAGABLE_KEY]);
    let v = compute(&mut dice, &[1]);
    dice.state.drop_ctx_at_version(v);
    dice.pagable_storage = false;
    let stats = evict(&mut dice, &vec![], usize::MAX, &[PAGABLE_KEY]);
    assert_eq!(stats.selected, 0);
    assert_eq!(stats, PressureEvictStats::default());
}

fn candidate(index: u32, begin: u64) -> PressureCandidate {
    PressureCandidate {
        key: DiceKey { index },
        value: DiceValidValue::new(index as u64, 0),
        last_verified_begin: VersionNumber::new(begin),
    }
}

fn order(plan: &EvictionPlan) -> Vec<u32> {
    plan.batches.iter().flatten().map(|(k, _)| k.index).collect()
}

#[test]
fn the_coldest_go_first_and_ties_stay_in_order() {
    let names = allow(&["A"; 6]);
    let candidates = vec![
        candidate(0, 7),
        candidate(1, 3),
        candidate(2, 7),
        candidate(3, 1),
        candidate(4, 3),
        candidate(9, 0),
    ];
    let plan = plan_eviction(&candidates, &names, &allow(&["A"]), 10);
    // Key 9 has no type.
    assert_eq!(order(&plan), vec![3, 1, 4, 0, 2]);
    let plan = plan_eviction(&candidates, &names, &allow(&["A"]), 2);
    assert_eq!(order(&plan), vec![3, 1]);
    assert_eq!(plan.stats, PressureEvictStats { candidates: 5, selected: 2 });
}

#[test]
fn large_sweeps_go_in_batches() {
    let names = allow(&["A"; 600]);
    let candidates: Vec<_> = (0..600).map(|i| candidate(i, 600 - i as u64)).collect();
    let plan = plan_eviction(&candidates, &names, &allow(&["B", "A"]), usize::MAX);
    let sizes: Vec<usize> = plan.batches.iter().map(|b| b.len()).collect();
    assert_eq!(sizes, vec![256, 256, 88]);
    assert_eq!(order(&plan), (0..600).rev().collect::<Vec<u32>>());
    let plan = plan_eviction(&candidates, &names, &allow(&["A"]), 512);
    assert_eq!(plan.batches.len(), 2);
}

#[test]
fn pressure_requests_are_answered() {
    let mut dice = make_dice(&[]);
    let v = compute(&mut dice, &[1, 2]);
    match (PressureRequest::ActiveCaches).handle(&dice.state) {
        PressureReply::ActiveCaches(caches) => assert_eq!(caches.len(), 1),
        PressureReply::Candidates(_) => panic!("caches were asked for"),
    }
    let referenced: HashSet<u32> = [2].into_iter().collect();
    let request = PressureRequest::Candidates { referenced, pending: HashSet::new() };
    match request.handle(&dice.state) {
        PressureReply::Candidates(found) => {
            assert_eq!(found.len(), 1);
            assert_eq!(found[0].value.allocation, 101);
        }
        PressureReply::ActiveCaches(_) => panic!("candidates were asked for"),
    }
    assert_eq!(v, VersionNumber::first());
}
