use dice_state::core_state::{
    ChangeType, CoreState, PersistNodeExtract, PersistValueExtract,
};
use dice_state::force_dirty::{ForceDirtyHistory, InvalidationSourcePriority};
use dice_state::persist::{
    accept_whole, decode, encode, HeaderMismatch, PersistError, PersistedForceDirty,
    PersistedVersionRanges, SnapshotHeader, SNAPSHOT_MAGIC, SNAPSHOT_SCHEMA_VERSION,
};
use dice_state::graph_types::{
    StorageType, ValueReusable, VersionedGraphKey, VersionedGraphResult,
};
use dice_state::persist_ext::{PersistReply, PersistRequest, SnapshotRefusal};
use dice_state::pressure::Dice;
use dice_state::snapshot::{record_kind, NodeRecord, PersistStats, RecordKind, Snapshot};
use dice_state::value::{DataKey, DiceKey, DiceValidValue, TrackedInvalidationPaths};
use dice_state::versions::{VersionNumber, VersionRange, VersionRanges};

fn header(schema: u32, binary: u8) -> SnapshotHeader {
    SnapshotHeader {
        magic: SNAPSHOT_MAGIC,
        schema_version: schema,
        binary_hash: [binary; 32],
        buckconfig_digest: [2; 32],
        cell_digest: [3; 32],
        prelude_digest: [4; 32],
        node_count: 42,
        max_version: 7,
    }
}

#[test]
fn header_round_trip_and_validation() {
    let h = header(SNAPSHOT_SCHEMA_VERSION, 1);
    let decoded: SnapshotHeader = decode(&encode(&h).unwrap()).unwrap();
    assert_eq!(h, decoded);
    assert_eq!(decoded.validate(&h), Ok(()));

    let wrong_binary = header(SNAPSHOT_SCHEMA_VERSION, 9);
    assert_eq!(decoded.validate(&wrong_binary), Err(HeaderMismatch::BinaryHash));
    let wrong_schema = header(SNAPSHOT_SCHEMA_VERSION + 1, 1);
    assert_eq!(decoded.validate(&wrong_schema), Err(HeaderMismatch::Schema));
}

#[test]
fn every_identity_field_is_compared() {
    let h = header(1, 1);
    let mut other = h;
    other.magic[0] = 0;
    assert_eq!(other.validate(&h), Err(HeaderMismatch::Magic));
    let mut other = h;
    other.buckconfig_digest[31] = 0;
    assert_eq!(other.validate(&h), Err(HeaderMismatch::BuckconfigDigest));
    let mut other = h;
    other.cell_digest[0] = 0;
    assert_eq!(other.validate(&h), Err(HeaderMismatch::CellDigest));
    let mut other = h;
    other.prelude_digest[7] = 0;
    assert_eq!(other.validate(&h), Err(HeaderMismatch::PreludeDigest));
    let mut other = h;
    other.node_count = 0;
    other.max_version = 0;
    assert_eq!(other.validate(&h), Ok(()));
}

#[test]
fn version_ranges_round_trip() {
    let mut vr = VersionRanges::new();
    vr.insert(VersionRange::bounded(VersionNumber::new(1), VersionNumber::new(4)));
    vr.insert(VersionRange::bounded(VersionNumber::new(9), VersionNumber::new(12)));
    vr.insert(VersionRange::begins_with(VersionNumber::new(20)));

    let wire = PersistedVersionRanges::from_internal(&vr);
    let decoded: PersistedVersionRanges = decode(&encode(&wire).unwrap()).unwrap();
    assert_eq!(wire, decoded);
    assert_eq!(decoded.into_internal(), vr);
}

#[test]
fn force_dirty_round_trip_preserves_semantics() {
    let mut fd = ForceDirtyHistory::new();
    fd.force_dirty(VersionNumber::new(3), InvalidationSourcePriority::High);
    fd.force_dirty(VersionNumber::new(8), InvalidationSourcePriority::High);
    fd.force_dirty(VersionNumber::new(21), InvalidationSourcePriority::High);

    let wire = PersistedForceDirty::from_internal(&fd);
    let decoded: PersistedForceDirty = decode(&encode(&wire).unwrap()).unwrap();
    let rebuilt = decoded.into_internal().unwrap();

    // Structural identity implies behavioral identity: restricted_range
    // is a pure function of (versions, priority).
    assert_eq!(
        fd.parts_for_persist().map(|(v, p)| (v.to_vec(), p)),
        rebuilt.parts_for_persist().map(|(v, p)| (v.to_vec(), p)),
    );
    assert_eq!(
        rebuilt.restricted_range(VersionNumber::new(10)),
        VersionRange::bounded(VersionNumber::new(8), VersionNumber::new(21))
    );
}

#[test]
fn force_dirty_empty_round_trip() {
    let fd = ForceDirtyHistory::new();
    let rebuilt = PersistedForceDirty::from_internal(&fd).into_internal().unwrap();
    assert!(rebuilt.parts_for_persist().is_none());
}

#[test]
fn corrupt_priority_is_an_error_not_a_panic() {
    let wire = PersistedForceDirty { versions: vec![1], priority: 7 };
    assert!(wire.into_internal().is_err());
}

#[test]
fn encode_is_deterministic_across_round_trip() {
    let mut vr = VersionRanges::new();
    for i in 0..50u32 {
        vr.insert(VersionRange::bounded(
            VersionNumber::new((i * 3) as u64),
            VersionNumber::new((i * 3 + 2) as u64),
        ));
    }
    let wire = PersistedVersionRanges::from_internal(&vr);
    let a = encode(&wire).unwrap();
    let decoded: PersistedVersionRanges = decode(&a).unwrap();
    let b = encode(&decoded).unwrap();
    assert_eq!(a, b, "serialization must be deterministic");
}

#[test]
fn encoded_forms_are_exact() {
    let wire = PersistedForceDirty { versions: vec![1, 250, 251], priority: 2 };
    assert_eq!(encode(&wire).unwrap(), vec![3, 1, 250, 251, 251, 0, 2]);
    let wire = PersistedVersionRanges { ranges: vec![(1, Some(4)), (9, None)] };
    assert_eq!(encode(&wire).unwrap(), vec![2, 1, 1, 4, 9, 0]);
    let bytes = encode(&header(1, 1)).unwrap();
    assert_eq!(bytes.len(), 8 + 1 + 4 * 32 + 1 + 1);
    assert_eq!(bytes[..10], [68, 73, 67, 69, 0, 83, 78, 80, 1, 1]);
    assert_eq!(bytes[bytes.len() - 2..], [42, 7]);
}

#[test]
fn all_bytes_have_to_be_used() {
    let wire = PersistedForceDirty { versions: vec![1], priority: 0 };
    let mut bytes = encode(&wire).unwrap();
    bytes.extend([0, 0, 0]);
    let decoded: Result<PersistedForceDirty, PersistError> = decode(&bytes);
    assert_eq!(decoded, Err(PersistError::TrailingBytes { count: 3 }));
    assert_eq!(
        PersistError::TrailingBytes { count: 3 }.message(),
        "corrupt snapshot: 3 trailing bytes after decode"
    );
    bytes.truncate(1);
    let decoded: Result<PersistedForceDirty, PersistError> = decode(&bytes);
    assert!(matches!(decoded, Err(PersistError::Decode { .. })));
    let decoded: Result<SnapshotHeader, PersistError> = decode(&[1, 2, 3]);
    assert!(matches!(decoded, Err(PersistError::Decode { .. })));
    let decoded: Result<PersistedVersionRanges, PersistError> = decode(&[]);
    assert!(matches!(decoded, Err(PersistError::Decode { .. })));
    assert_eq!(accept_whole('x', 4, 4), Ok('x'));
    assert_eq!(accept_whole('x', 4, 6), Err(PersistError::TrailingBytes { count: 2 }));
}

#[test]
fn error_messages() {
    assert_eq!(
        PersistedForceDirty { versions: vec![1], priority: 7 }.into_internal().unwrap_err().message(),
        "corrupt snapshot: invalidation priority 7 (expected 0..=2)"
    );
    assert_eq!(PersistError::Encode.message(), "snapshot value cannot be encoded");
    assert_eq!(
        PersistError::Record.message(),
        "corrupt snapshot: a record is not in order"
    );
}

#[test]
fn decoding_errors_are_told_as_bincode_tells_them() {
    let config = bincode::config::standard();
    for bytes in [vec![], vec![1], vec![3, 1, 2], vec![1, 1, 7], vec![254, 0], vec![255]] {
        let ours: Result<PersistedVersionRanges, PersistError> = decode(&bytes);
        let theirs: Result<(Vec<(u64, Option<u64>)>, usize), _> =
            bincode::serde::decode_from_slice(&bytes, config);
        assert_eq!(ours.unwrap_err().message(), theirs.unwrap_err().to_string());
        let ours: Result<PersistedForceDirty, PersistError> = decode(&bytes);
        let theirs: Result<((Vec<u64>, u8), usize), _> =
            bincode::serde::decode_from_slice(&bytes, config);
        if let Err(e) = theirs {
            assert_eq!(ours.unwrap_err().message(), e.to_string());
        }
    }
    let ours: Result<SnapshotHeader, PersistError> = decode(&[1, 2, 3]);
    assert!(ours.unwrap_err().message().starts_with("UnexpectedEnd"));
}

#[test]
fn ranges_that_touch_become_one() {
    let mut vr = VersionRanges::new();
    vr.insert(VersionRange::bounded(VersionNumber::new(5), VersionNumber::new(7)));
    vr.insert(VersionRange::bounded(VersionNumber::new(1), VersionNumber::new(3)));
    vr.insert(VersionRange::bounded(VersionNumber::new(3), VersionNumber::new(5)));
    assert_eq!(
        *vr.ranges_for_persist(),
        vec![VersionRange::bounded(VersionNumber::new(1), VersionNumber::new(7))]
    );
    assert_eq!(vr.find_value_upper_bound(VersionNumber::new(100)), Some(VersionNumber::new(6)));
    assert_eq!(vr.find_value_upper_bound(VersionNumber::new(0)), None);
}

fn dice(pagable_storage: bool) -> Dice {
    Dice { state: CoreState::new(), key_types: vec![], pagable_storage }
}

#[test]
fn a_header_that_does_not_match_is_a_cold_start() {
    let ours = header(1, 7);
    let bytes = encode(&ours).unwrap();
    let dice = dice(true);
    let loaded: Result<_, SnapshotRefusal<()>> = dice.load_persisted_snapshot(Some(&bytes), &ours);
    assert_eq!(loaded, Ok(Some(ours)));
    let loaded: Result<_, SnapshotRefusal<()>> =
        dice.load_persisted_snapshot(Some(&bytes), &header(1, 9));
    assert_eq!(loaded, Ok(None));
    let loaded: Result<_, SnapshotRefusal<()>> = dice.load_persisted_snapshot(None, &ours);
    assert_eq!(loaded, Ok(None));
    let loaded: Result<_, SnapshotRefusal<()>> =
        dice.load_persisted_snapshot(Some(&vec![1, 2]), &ours);
    assert_eq!(loaded, Ok(None));
}

#[test]
fn snapshots_need_a_store() {
    let without = dice(false);
    let refusal = without.load_persisted_snapshot::<()>(None, &header(1, 1)).unwrap_err();
    assert_eq!(
        refusal.message().unwrap(),
        "load_persisted_snapshot requires pagable storage (set_pagable_storage)"
    );
    let refusal = without.save_persisted_snapshot::<()>(Ok(())).unwrap_err();
    assert_eq!(
        refusal.message().unwrap(),
        "save_persisted_snapshot requires pagable storage (set_pagable_storage)"
    );
    assert_eq!(without.save_persisted_snapshot(Err(5)), Err(SnapshotRefusal::PageOut(5)));
    assert_eq!(SnapshotRefusal::PageOut(5).message(), None);
    assert_eq!(
        dice(true).save_persisted_snapshot::<()>(Ok(())),
        Ok((VersionNumber::first(), vec![]))
    );
}

#[test]
fn persist_requests_are_answered() {
    let mut core = CoreState::new();
    let reply = PersistRequest::Install { nodes: vec![], at_version: VersionNumber::new(6) }
        .handle(&mut core);
    assert!(matches!(reply, PersistReply::Installed));
    match (PersistRequest::Extract).handle(&mut core) {
        PersistReply::Extracted(at, nodes) => {
            assert_eq!(at, VersionNumber::new(6));
            assert!(nodes.is_empty());
        }
        PersistReply::Installed => panic!("nothing was installed"),
    }
}

fn inject(dice: &mut Dice, leaves: &[(u32, DiceValidValue)]) -> VersionNumber {
    let updates = leaves
        .iter()
        .map(|(index, value)| {
            (
                DiceKey { index: *index },
                ChangeType::UpdateValue(*value, StorageType::Injected),
                InvalidationSourcePriority::Normal,
            )
        })
        .collect();
    dice.state.update_state(&updates)
}

fn key(index: u32) -> DiceKey {
    DiceKey { index }
}

fn compute(dice: &mut Dice, v: VersionNumber, index: u32, dep: u32) -> DiceValidValue {
    let value = DiceValidValue::new(index as u64, index as u64);
    let (epoch, _) = dice.state.ctx_at_version(v);
    dice.state
        .update_computed(
            VersionedGraphKey::new(v, key(index)),
            epoch,
            StorageType::Normal,
            value,
            ValueReusable::EqualityBased,
            vec![key(dep)],
            TrackedInvalidationPaths::clean(),
        )
        .unwrap();
    dice.state.drop_ctx_at_version(v);
    value
}

/// Keys below 10 are leaves, those from 20 on are opaque: their values cannot be serialized.
fn key_types() -> Vec<String> {
    (0..30)
        .map(|i| match i {
            0..=9 => "Leaf",
            10..=19 => "Derived",
            _ => "Opaque",
        })
        .map(|name| name.to_owned())
        .collect()
}

/// A value is stored by what it is, unless it cannot be.
fn place(class: u64) -> Option<DataKey> {
    match class {
        0..=199 => Some(DataKey { id: class as u128 }),
        _ => None,
    }
}

/// Two leaves, 1 and 2, and for each a node, 11 and 12, that read it.
fn saved_dice() -> Dice {
    let mut dice = dice(true);
    dice.key_types = key_types();
    let v = inject(
        &mut dice,
        &[(1, DiceValidValue::new(1, 105)), (2, DiceValidValue::new(2, 107))],
    );
    for n in [1, 2] {
        let value = compute(&mut dice, v, 10 + n, n);
        dice.state.evict_keys(&vec![(key(10 + n), DataKey { id: 10 + n as u128 }, value)]);
    }
    dice
}

fn names(list: &[&str]) -> Vec<String> {
    list.iter().map(|n| (*n).to_owned()).collect()
}

fn save(dice: &Dice, identity: &SnapshotHeader, deny: &[&str]) -> Snapshot {
    let (version, nodes) = dice.save_persisted_snapshot::<()>(Ok(())).unwrap();
    let stored = nodes
        .iter()
        .map(|node| match node {
            PersistNodeExtract::Occupied { value: PersistValueExtract::Hydrated(v), .. } => {
                place(v.class)
            }
            PersistNodeExtract::Occupied { .. } => None,
            PersistNodeExtract::Injected { value, .. } => place(value.class),
        })
        .collect();
    dice.finish_save(identity, version, &nodes, &stored, &names(deny))
}

/// The leaves come back in new allocations.
fn read_back(records: Vec<NodeRecord>) -> Vec<(NodeRecord, Option<DiceValidValue>)> {
    records
        .into_iter()
        .map(|record| {
            let value = match &record {
                NodeRecord::Injected { value, .. } => {
                    Some(DiceValidValue::new(1000 + value.id as u64, value.id as u64))
                }
                NodeRecord::Occupied { .. } => None,
            };
            (record, value)
        })
        .collect()
}

/// Loads what was saved into a fresh one.
fn reload(saved: Snapshot, identity: &SnapshotHeader) -> (Dice, PersistStats) {
    let bytes = encode(&saved.header).unwrap();
    let mut fresh = dice(true);
    fresh.key_types = key_types();
    let found = fresh.load_persisted_snapshot::<()>(Some(&bytes), identity).unwrap();
    let stats = fresh.finish_load(found, Ok(read_back(saved.records))).unwrap();
    (fresh, stats)
}

fn at(dice: &Dice, v: VersionNumber, index: u32) -> VersionedGraphResult {
    dice.state.lookup_key(VersionedGraphKey::new(v, key(index)))
}

#[test]
fn save_load_save_writes_the_same() {
    let identity = header(1, 7);
    let first = saved_dice();
    let a = save(&first, &identity, &[]);
    assert_eq!((a.header.node_count, a.header.max_version), (4, 2));
    assert_eq!(
        a.stats,
        PersistStats {
            nodes_persisted: 2,
            nodes_injected: 2,
            keys_only: 0,
            dropped_unserializable: 0,
        }
    );
    let (second, stats) = reload(save(&first, &identity, &[]), &identity);
    assert_eq!(stats, a.stats);
    let b = save(&second, &identity, &[]);
    assert_eq!(encode(&a.header).unwrap(), encode(&b.header).unwrap());
    assert_eq!(a, b);
}

#[test]
fn changed_leaves_dirty_only_their_dependents_after_a_load() {
    let identity = header(1, 7);
    let (mut dice, _) = reload(save(&saved_dice(), &identity, &[]), &identity);
    // The leaves are as they were: all is served.
    let leaves = [(1, DiceValidValue::new(21, 105)), (2, DiceValidValue::new(22, 107))];
    assert_eq!(inject(&mut dice, &leaves), VersionNumber::new(2));
    // One of them changes.
    let leaves = [(1, DiceValidValue::new(31, 106)), (2, DiceValidValue::new(32, 107))];
    let v = inject(&mut dice, &leaves);
    assert_eq!(v, VersionNumber::new(3));
    assert!(matches!(at(&dice, v, 11), VersionedGraphResult::CheckDeps { .. }));
    assert!(matches!(
        at(&dice, v, 12),
        VersionedGraphResult::Stored { data_key: DataKey { id: 12 }, .. }
    ));
}

#[test]
fn an_unserializable_value_degrades_to_a_recompute() {
    let identity = header(1, 7);
    let mut dice = saved_dice();
    let v = dice.state.current_version();
    // An opaque node that read leaf 1, and a node that read the opaque one.
    let value = DiceValidValue::new(20, 250);
    let (epoch, _) = dice.state.ctx_at_version(v);
    dice.state
        .update_computed(
            VersionedGraphKey::new(v, key(20)),
            epoch,
            StorageType::Normal,
            value,
            ValueReusable::EqualityBased,
            vec![key(1)],
            TrackedInvalidationPaths::clean(),
        )
        .unwrap();
    compute(&mut dice, v, 13, 20);

    let saved = save(&dice, &identity, &[]);
    assert_eq!((saved.stats.nodes_persisted, saved.stats.keys_only), (3, 1));
    let (mut loaded, stats) = reload(saved, &identity);
    assert_eq!((stats.nodes_persisted, stats.nodes_injected, stats.keys_only), (3, 2, 1));
    assert!(matches!(at(&loaded, v, 20), VersionedGraphResult::Compute));
    assert!(matches!(at(&loaded, v, 11), VersionedGraphResult::Stored { .. }));
    assert!(matches!(at(&loaded, v, 13), VersionedGraphResult::Stored { .. }));
    // Saved again, it has nothing to be saved.
    assert_eq!(save(&loaded, &identity, &[]).records.len(), 5);
    // What it read is known: a change below it reaches what read it.
    let w = inject(&mut loaded, &[(1, DiceValidValue::new(31, 106))]);
    assert!(matches!(at(&loaded, w, 13), VersionedGraphResult::CheckDeps { .. }));
    assert!(matches!(at(&loaded, w, 12), VersionedGraphResult::Stored { .. }));
}

#[test]
fn denied_values_are_not_written() {
    let identity = header(1, 7);
    let saved = save(&saved_dice(), &identity, &["Derived"]);
    assert_eq!((saved.stats.nodes_persisted, saved.stats.keys_only), (0, 2));
    assert_eq!(saved.header.node_count, 4);
    let (loaded, _) = reload(saved, &identity);
    assert!(matches!(
        at(&loaded, VersionNumber::new(2), 11),
        VersionedGraphResult::Compute
    ));
    // A leaf that cannot be written is left out altogether.
    let saved = save(&saved_dice(), &identity, &["Leaf"]);
    assert_eq!((saved.stats.nodes_injected, saved.stats.dropped_unserializable), (0, 2));
    assert_eq!(saved.header.node_count, 2);
}

#[test]
fn kinds_of_records() {
    let leaf = PersistNodeExtract::Injected {
        key: key(1),
        first_valid_version: VersionNumber::first(),
        value: DiceValidValue::new(1, 1),
    };
    let node = |value| PersistNodeExtract::Occupied {
        key: key(11),
        deps: vec![],
        verified_ranges: VersionRanges::new(),
        dirtied_history: ForceDirtyHistory::new(),
        value,
    };
    let paged = node(PersistValueExtract::Paged(DataKey { id: 1 }));
    let held = node(PersistValueExtract::Hydrated(DiceValidValue::new(1, 1)));
    let deny = names(&["BuildKey"]);
    assert_eq!(record_kind(&leaf, "A", &deny, true), RecordKind::Injected);
    assert_eq!(record_kind(&leaf, "A", &deny, false), RecordKind::Dropped);
    assert_eq!(record_kind(&leaf, "BuildKey", &deny, true), RecordKind::Dropped);
    assert_eq!(record_kind(&paged, "A", &deny, false), RecordKind::Persisted);
    assert_eq!(record_kind(&paged, "BuildKey", &deny, true), RecordKind::KeyOnly);
    assert_eq!(record_kind(&held, "A", &deny, true), RecordKind::Persisted);
    assert_eq!(record_kind(&held, "A", &deny, false), RecordKind::KeyOnly);
}

#[test]
fn records_that_are_of_no_use_are_a_cold_start() {
    let identity = header(1, 7);
    let leaf = || NodeRecord::Injected {
        key: key(1),
        first_valid_version: 1,
        value: DataKey { id: 1 },
    };
    let value = Some(DiceValidValue::new(1, 1));
    let node = |ranges: Vec<(u64, Option<u64>)>, priority: u8| NodeRecord::Occupied {
        key: key(11),
        deps: vec![key(1)],
        ranges: PersistedVersionRanges { ranges },
        dirtied: PersistedForceDirty { versions: vec![], priority },
        value: Some(DataKey { id: 2 }),
    };
    let mut dice = dice(true);

    let unreadable = PersistError::Decode { message: String::new() };
    assert_eq!(dice.finish_load(Some(identity), Err(unreadable)), None);
    assert_eq!(dice.finish_load(None, Ok(vec![(leaf(), value)])), None);
    assert_eq!(dice.finish_load(Some(identity), Ok(vec![(leaf(), None)])), None);
    let disordered = vec![(leaf(), value), (node(vec![(5, Some(4))], 1), None)];
    assert_eq!(dice.finish_load(Some(identity), Ok(disordered)), None);
    let unknown = vec![(leaf(), value), (node(vec![(1, None)], 9), None)];
    assert_eq!(dice.finish_load(Some(identity), Ok(unknown)), None);
    assert_eq!(dice.state.metrics().key_count, 0);
    assert_eq!(dice.state.current_version(), VersionNumber::first());

    let good = vec![(leaf(), value), (node(vec![(1, None)], 1), None)];
    let stats = dice.finish_load(Some(identity), Ok(good)).unwrap();
    assert_eq!((stats.nodes_persisted, stats.nodes_injected), (1, 1));
    assert_eq!(dice.state.metrics().key_count, 2);
    assert_eq!(dice.state.current_version(), VersionNumber::new(7));
}
