//! What is written of the nodes of a snapshot, and what is made of it when it is read.
use vstd::prelude::*;

use crate::core_state::{CoreView, PersistNodeExtract, PersistValueExtract};
use crate::force_dirty::ForceDirtyHistory;
use crate::graph::{copy_keys, installed, node_views};
use crate::nodes::{
    InjectedGraphNode, NodeView, OccupiedGraphNode, VacantGraphNode, VersionedGraphNode,
};
use crate::persist::{
    restored_force_dirty, restored_ranges, stored_force_dirty, stored_ranges, PersistError,
    PersistedForceDirty, PersistedVersionRanges, SnapshotHeader,
};
use crate::pressure::Dice;
use crate::text::{contains_name, texts};
use crate::tracker::TrackerView;
use crate::value::{
    DataKey, DiceKey, DiceValidValue, PagableNodeValue, TrackedInvalidationPaths,
};
use crate::versions::{canonical, covers, VersionNumber, VersionRanges};

verus! {

/// What becomes of a node in a snapshot.
#[derive(Debug, Clone, Copy, PartialEq, Eq, Structural)]
pub enum RecordKind {
    /// It is written with where its value is stored.
    Persisted,
    /// It is a leaf and is written with where its value is stored.
    Injected,
    /// It is written without its value, which is to be computed anew.
    KeyOnly,
    /// It is not written: it is a leaf, and its value cannot be.
    Dropped,
}

/// How many nodes of a snapshot became what.
#[derive(Debug, Clone, Copy, PartialEq, Eq, Structural)]
pub struct PersistStats {
    pub nodes_persisted: usize,
    pub nodes_injected: usize,
    pub keys_only: usize,
    pub dropped_unserializable: usize,
}

/// A node as it is written. Without a value, it is there for what depends on it and for what
/// it depends on.
#[allow(inconsistent_fields)]
#[derive(Debug, PartialEq, Eq)]
pub enum NodeRecord {
    Occupied {
        key: DiceKey,
        deps: Vec<DiceKey>,
        ranges: PersistedVersionRanges,
        dirtied: PersistedForceDirty,
        value: Option<DataKey>,
    },
    Injected { key: DiceKey, first_valid_version: u64, value: DataKey },
}

/// What a record says.
#[allow(inconsistent_fields)]
pub enum RecordView {
    Occupied {
        key: DiceKey,
        deps: Seq<DiceKey>,
        ranges: Seq<(u64, Option<u64>)>,
        dirtied: (Seq<u64>, u8),
        value: Option<DataKey>,
    },
    Injected { key: DiceKey, first_valid_version: u64, value: DataKey },
}

impl View for NodeRecord {
    type V = RecordView;

    open spec fn view(&self) -> RecordView {
        match self {
            NodeRecord::Occupied { key, deps, ranges, dirtied, value } => RecordView::Occupied {
                key: *key,
                deps: deps@,
                ranges: ranges@,
                dirtied: dirtied@,
                value: *value,
            },
            NodeRecord::Injected { key, first_valid_version, value } => RecordView::Injected {
                key: *key,
                first_valid_version: *first_valid_version,
                value: *value,
            },
        }
    }
}

impl RecordView {
    /// The key of the node.
    pub open spec fn key(self) -> DiceKey {
        match self {
            RecordView::Occupied { key, .. } => key,
            RecordView::Injected { key, .. } => key,
        }
    }

    /// What became of the node.
    pub open spec fn kind(self) -> RecordKind {
        match self {
            RecordView::Occupied { value, .. } => if value is Some {
                RecordKind::Persisted
            } else {
                RecordKind::KeyOnly
            },
            RecordView::Injected { .. } => RecordKind::Injected,
        }
    }
}

/// What becomes of a node whose key has the given type. The value of a denied type is not
/// written, nor one that could not be serialized; one that is stored already was.
pub open spec fn kind_of(
    node: PersistNodeExtract,
    key_type: Seq<char>,
    deny: Seq<Seq<char>>,
    serialized: bool,
) -> RecordKind {
    match node {
        PersistNodeExtract::Occupied { value, .. } => if !deny.contains(key_type) && (value is Paged
            || serialized) {
            RecordKind::Persisted
        } else {
            RecordKind::KeyOnly
        },
        PersistNodeExtract::Injected { .. } => if !deny.contains(key_type) && serialized {
            RecordKind::Injected
        } else {
            RecordKind::Dropped
        },
    }
}

/// What becomes of a node whose key has the given type.
pub fn record_kind(
    node: &PersistNodeExtract,
    key_type: &str,
    deny: &Vec<String>,
    serialized: bool,
) -> (r: RecordKind)
    ensures
        r == kind_of(*node, key_type@, texts(deny@), serialized),
{
    let denied: bool = contains_name(deny, key_type);
    match node {
        PersistNodeExtract::Occupied { value, .. } => {
            let stored: bool = match value {
                PersistValueExtract::Paged(_) => true,
                PersistValueExtract::Hydrated(_) => serialized,
            };
            if !denied && stored {
                RecordKind::Persisted
            } else {
                RecordKind::KeyOnly
            }
        },
        PersistNodeExtract::Injected { .. } => if !denied && serialized {
            RecordKind::Injected
        } else {
            RecordKind::Dropped
        },
    }
}

/// How many of the kinds are the given one.
pub open spec fn count(kinds: Seq<RecordKind>, kind: RecordKind) -> nat
    decreases kinds.len(),
{
    if kinds.len() == 0 {
        0
    } else {
        count(kinds.drop_last(), kind) + (if kinds.last() == kind {
            1nat
        } else {
            0nat
        })
    }
}

impl PersistStats {
    /// Whether these are the numbers of nodes of the given kinds.
    pub open spec fn tallies(self, kinds: Seq<RecordKind>) -> bool {
        &&& self.nodes_persisted == count(kinds, RecordKind::Persisted)
        &&& self.nodes_injected == count(kinds, RecordKind::Injected)
        &&& self.keys_only == count(kinds, RecordKind::KeyOnly)
        &&& self.dropped_unserializable == count(kinds, RecordKind::Dropped)
    }

    /// No nodes at all.
    pub fn new() -> (r: PersistStats)
        ensures
            r.tallies(Seq::empty()),
    {
        PersistStats {
            nodes_persisted: 0,
            nodes_injected: 0,
            keys_only: 0,
            dropped_unserializable: 0,
        }
    }

    /// Counts one more node.
    fn add(&mut self, kind: RecordKind, kinds: Ghost<Seq<RecordKind>>)
        requires
            old(self).tallies(kinds@),
            kinds@.len() < usize::MAX,
        ensures
            final(self).tallies(kinds@.push(kind)),
    {
        proof {
            assert(kinds@.push(kind).drop_last() =~= kinds@);
            lemma_count_bound(kinds@, kind);
        }
        match kind {
            RecordKind::Persisted => {
                self.nodes_persisted += 1;
            },
            RecordKind::Injected => {
                self.nodes_injected += 1;
            },
            RecordKind::KeyOnly => {
                self.keys_only += 1;
            },
            RecordKind::Dropped => {
                self.dropped_unserializable += 1;
            },
        }
    }
}

/// There are no more of a kind than there are kinds.
proof fn lemma_count_bound(kinds: Seq<RecordKind>, kind: RecordKind)
    ensures
        count(kinds, kind) <= kinds.len(),
    decreases kinds.len(),
{
    if kinds.len() > 0 {
        lemma_count_bound(kinds.drop_last(), kind);
    }
}

/// The name of the type of a key, found under its index; none where there is none.
pub open spec fn name_of_type(key_types: Seq<Seq<char>>, index: u32) -> Seq<char> {
    if index < key_types.len() {
        key_types[index as int]
    } else {
        ""@
    }
}

/// What is to be saved: what goes in of each node, the names of the types of the keys, the
/// denied types, and where each value that was in memory was stored, if it could be.
pub struct SaveView {
    pub nodes: Seq<PersistNodeExtract>,
    pub key_types: Seq<Seq<char>>,
    pub deny: Seq<Seq<char>>,
    pub stored: Seq<Option<DataKey>>,
}

impl SaveView {
    /// What becomes of the `i`-th node.
    pub open spec fn kind(self, i: int) -> RecordKind {
        kind_of(
            self.nodes[i],
            name_of_type(self.key_types, self.nodes[i].index()),
            self.deny,
            self.stored[i] is Some,
        )
    }

    /// What becomes of each node.
    pub open spec fn kinds(self) -> Seq<RecordKind> {
        Seq::new(self.nodes.len(), |i: int| self.kind(i))
    }

    /// What is written of the `i`-th node, if it is not dropped.
    pub open spec fn record(self, i: int) -> RecordView {
        match self.nodes[i] {
            PersistNodeExtract::Occupied { key, deps, verified_ranges, dirtied_history, value } =>
                RecordView::Occupied {
                key,
                deps: deps@,
                ranges: stored_ranges(verified_ranges@),
                dirtied: stored_force_dirty(dirtied_history@),
                value: if self.kind(i) is KeyOnly {
                    None
                } else {
                    match value {
                        PersistValueExtract::Paged(data_key) => Some(data_key),
                        PersistValueExtract::Hydrated(_) => self.stored[i],
                    }
                },
            },
            PersistNodeExtract::Injected { key, first_valid_version, .. } => RecordView::Injected {
                key,
                first_valid_version: first_valid_version.number,
                value: self.stored[i]->0,
            },
        }
    }

    /// What is written of the first `n` nodes.
    pub open spec fn records(self, n: int) -> Seq<RecordView>
        decreases n,
    {
        if n <= 0 {
            Seq::empty()
        } else if self.kind(n - 1) is Dropped {
            self.records(n - 1)
        } else {
            self.records(n - 1).push(self.record(n - 1))
        }
    }

    /// What is written.
    pub open spec fn all_records(self) -> Seq<RecordView> {
        self.records(self.nodes.len() as int)
    }
}

/// The header of a snapshot with so many records that is taken at the given version, where
/// `identity` describes the present.
pub open spec fn snapshot_header(
    identity: SnapshotHeader,
    records: nat,
    version: VersionNumber,
) -> SnapshotHeader {
    SnapshotHeader { node_count: records as u64, max_version: version.number, ..identity }
}

/// What the records say.
pub open spec fn record_views(records: Seq<NodeRecord>) -> Seq<RecordView> {
    records.map_values(|r: NodeRecord| r@)
}

/// What is written, and how many nodes became what.
#[derive(Debug, PartialEq, Eq)]
pub struct Snapshot {
    pub header: SnapshotHeader,
    pub records: Vec<NodeRecord>,
    pub stats: PersistStats,
}

impl Dice {
    /// The name of the type of a key.
    fn key_type(&self, index: u32) -> (r: &str)
        ensures
            r@ == name_of_type(texts(self.key_types@), index),
    {
        let i: usize = index as usize;
        if i < self.key_types.len() {
            assert(texts(self.key_types@)[i as int] == self.key_types@[i as int]@);
            self.key_types[i].as_str()
        } else {
            ""
        }
    }

    /// Ends a save, once it is known where the values were stored that were in memory: the
    /// header, where `identity` describes the present, the records in the order of the nodes,
    /// and how many nodes became what.
    pub fn finish_save(
        &self,
        identity: &SnapshotHeader,
        version: VersionNumber,
        nodes: &Vec<PersistNodeExtract>,
        stored: &Vec<Option<DataKey>>,
        deny: &Vec<String>,
    ) -> (r: Snapshot)
        requires
            stored@.len() == nodes@.len(),
        ensures
            ({
                let save = SaveView {
                    nodes: nodes@,
                    key_types: texts(self.key_types@),
                    deny: texts(deny@),
                    stored: stored@,
                };
                &&& record_views(r.records@) == save.all_records()
                &&& r.stats.tallies(save.kinds())
                &&& r.header == snapshot_header(*identity, r.records@.len(), version)
            }),
    {
        let ghost save = SaveView {
            nodes: nodes@,
            key_types: texts(self.key_types@),
            deny: texts(deny@),
            stored: stored@,
        };
        let mut records: Vec<NodeRecord> = Vec::new();
        let mut stats: PersistStats = PersistStats::new();
        let mut i: usize = 0;
        assert(save.kinds().take(0) =~= Seq::<RecordKind>::empty());
        assert(record_views(records@) =~= save.records(0));
        while i < nodes.len()
            invariant
                save == (SaveView {
                    nodes: nodes@,
                    key_types: texts(self.key_types@),
                    deny: texts(deny@),
                    stored: stored@,
                }),
                stored@.len() == nodes@.len(),
                i <= nodes@.len(),
                record_views(records@) == save.records(i as int),
                stats.tallies(save.kinds().take(i as int)),
            decreases nodes@.len() - i,
        {
            let node: &PersistNodeExtract = &nodes[i];
            let place: Option<DataKey> = stored[i];
            let index: u32 = match node {
                PersistNodeExtract::Occupied { key, .. } => key.index,
                PersistNodeExtract::Injected { key, .. } => key.index,
            };
            let kind: RecordKind = record_kind(node, self.key_type(index), deny, place.is_some());
            assert(kind == save.kind(i as int));
            stats.add(kind, Ghost(save.kinds().take(i as int)));
            proof {
                assert(save.kinds().take(i + 1) =~= save.kinds().take(i as int).push(kind));
            }
            let ghost before = records@;
            match node {
                PersistNodeExtract::Occupied {
                    key,
                    deps,
                    verified_ranges,
                    dirtied_history,
                    value,
                } => {
                    let at: Option<DataKey> = match (kind, value) {
                        (RecordKind::KeyOnly, _) => None,
                        (_, PersistValueExtract::Paged(data_key)) => Some(*data_key),
                        (_, PersistValueExtract::Hydrated(_)) => place,
                    };
                    records.push(
                        NodeRecord::Occupied {
                            key: *key,
                            deps: copy_keys(deps),
                            ranges: PersistedVersionRanges::from_internal(verified_ranges),
                            dirtied: PersistedForceDirty::from_internal(dirtied_history),
                            value: at,
                        },
                    );
                    assert(record_views(records@) =~= record_views(before).push(
                        save.record(i as int),
                    ));
                },
                PersistNodeExtract::Injected { key, first_valid_version, .. } => match (kind, place) {
                    (RecordKind::Injected, Some(data_key)) => {
                        records.push(
                            NodeRecord::Injected {
                                key: *key,
                                first_valid_version: first_valid_version.value(),
                                value: data_key,
                            },
                        );
                        assert(record_views(records@) =~= record_views(before).push(
                            save.record(i as int),
                        ));
                    },
                    _ => {},
                },
            }
            i += 1;
        }
        assert(save.kinds().take(nodes@.len() as int) =~= save.kinds());
        let header: SnapshotHeader = SnapshotHeader {
            magic: identity.magic,
            schema_version: identity.schema_version,
            binary_hash: identity.binary_hash,
            buckconfig_digest: identity.buckconfig_digest,
            cell_digest: identity.cell_digest,
            prelude_digest: identity.prelude_digest,
            node_count: records.len() as u64,
            max_version: version.number,
        };
        Snapshot { header, records, stats }
    }
}

/// The node that a record stands for; of a leaf, with the value that was read. None where the
/// record's parts are not in order or the value of a leaf is missing. A record without a value
/// stands for a node without one, of which it is known what its computation read.
pub open spec fn restored(record: RecordView, value: Option<DiceValidValue>) -> Option<
    (DiceKey, NodeView),
> {
    match record {
        RecordView::Occupied { key, deps, ranges, dirtied, value: place } => if canonical(
            restored_ranges(ranges),
        ) && restored_force_dirty(dirtied) is Some {
            let history = restored_force_dirty(dirtied)->0;
            Some(
                (
                    key,
                    match place {
                        Some(data_key) => NodeView::Occupied {
                            value: PagableNodeValue::PagedOut(data_key),
                            deps,
                            verified: Set::new(|v: int| covers(restored_ranges(ranges), v)),
                            dirtied: history,
                            paths: TrackedInvalidationPaths { normal: None, high: None },
                        },
                        None => NodeView::Vacant { dirtied: history, deps },
                    },
                ),
            )
        } else {
            None
        },
        RecordView::Injected { key, first_valid_version, .. } => match value {
            Some(read) => Some(
                (
                    key,
                    NodeView::Injected {
                        values: seq![(VersionNumber { number: first_valid_version }, read)],
                    },
                ),
            ),
            None => None,
        },
    }
}

/// Whether each record stands for a node.
pub open spec fn all_restored(records: Seq<(RecordView, Option<DiceValidValue>)>) -> bool {
    forall|i: int|
        #![trigger records[i]]
        0 <= i < records.len() ==> restored(records[i].0, records[i].1) is Some
}

/// The nodes that the records stand for.
pub open spec fn restored_nodes(records: Seq<(RecordView, Option<DiceValidValue>)>) -> Seq<
    (DiceKey, NodeView),
> {
    Seq::new(records.len(), |i: int| restored(records[i].0, records[i].1)->0)
}

/// What records with values say.
pub open spec fn read_views(records: Seq<(NodeRecord, Option<DiceValidValue>)>) -> Seq<
    (RecordView, Option<DiceValidValue>),
> {
    records.map_values(|e: (NodeRecord, Option<DiceValidValue>)| (e.0@, e.1))
}

/// What became of the nodes of the records.
pub open spec fn read_kinds(records: Seq<(RecordView, Option<DiceValidValue>)>) -> Seq<
    RecordKind,
> {
    records.map_values(|e: (RecordView, Option<DiceValidValue>)| e.0.kind())
}

/// The state once a snapshot with the given header and nodes was loaded into it.
pub open spec fn loaded(
    state: CoreView,
    header: SnapshotHeader,
    new: Seq<(DiceKey, NodeView)>,
) -> CoreView {
    CoreView {
        versions: TrackerView {
            current: VersionNumber { number: header.max_version },
            ..state.versions
        },
        nodes: installed(state.nodes, new),
        ..state
    }
}

impl NodeRecord {
    /// The node that the record stands for; of a leaf, with the value that was read.
    pub fn into_node(self, value: Option<DiceValidValue>) -> (r: Result<
        (DiceKey, VersionedGraphNode),
        PersistError,
    >)
        ensures
            match r {
                Ok((key, node)) => node.wf() && restored(self@, value) == Some((key, node@)),
                Err(e) => restored(self@, value) is None && e == (match self@ {
                    RecordView::Occupied { dirtied, .. } if restored_force_dirty(dirtied) is None =>
                        PersistError::Priority { found: dirtied.1 },
                    _ => PersistError::Record,
                }),
            },
    {
        match self {
            NodeRecord::Occupied { key, deps, ranges, dirtied, value: place } => {
                let verified: VersionRanges = ranges.into_internal();
                let history: ForceDirtyHistory = match dirtied.into_internal() {
                    Ok(history) => history,
                    Err(e) => {
                        return Err(e);
                    },
                };
                if !verified.is_canonical() {
                    return Err(PersistError::Record);
                }
                let node: VersionedGraphNode = match place {
                    Some(data_key) => VersionedGraphNode::Occupied(
                        OccupiedGraphNode {
                            value: PagableNodeValue::PagedOut(data_key),
                            deps,
                            verified,
                            dirtied: history,
                            paths: TrackedInvalidationPaths::clean(),
                        },
                    ),
                    None => VersionedGraphNode::Vacant(VacantGraphNode { dirtied: history, deps }),
                };
                assert(verified.versions() =~= Set::new(
                    |v: int| covers(restored_ranges(ranges@), v),
                ));
                Ok((key, node))
            },
            NodeRecord::Injected { key, first_valid_version, .. } => match value {
                Some(read) => {
                    let mut values: Vec<(VersionNumber, DiceValidValue)> = Vec::new();
                    values.push((VersionNumber::new(first_valid_version), read));
                    assert(values@ =~= seq![
                        (VersionNumber { number: first_valid_version }, read),
                    ]);
                    Ok((key, VersionedGraphNode::Injected(InjectedGraphNode { values })))
                },
                None => Err(PersistError::Record),
            },
        }
    }

    /// What became of the node.
    pub fn kind(&self) -> (r: RecordKind)
        ensures
            r == self@.kind(),
    {
        match self {
            NodeRecord::Occupied { value: Some(_), .. } => RecordKind::Persisted,
            NodeRecord::Occupied { value: None, .. } => RecordKind::KeyOnly,
            NodeRecord::Injected { .. } => RecordKind::Injected,
        }
    }
}

/// The nodes that the records stand for, if each stands for one, and how many became what.
fn restore_all(records: Vec<(NodeRecord, Option<DiceValidValue>)>) -> (r: Option<
    (Vec<(DiceKey, VersionedGraphNode)>, PersistStats),
>)
    ensures
        match r {
            Some((new, stats)) => all_restored(read_views(records@)) && node_views(new@)
                == restored_nodes(read_views(records@)) && stats.tallies(
                read_kinds(read_views(records@)),
            ) && forall|i: int| #![trigger new@[i]] 0 <= i < new@.len() ==> new@[i].1.wf(),
            None => !all_restored(read_views(records@)),
        },
{
    let ghost all = read_views(records@);
    let ghost kinds = read_kinds(all);
    let mut stats: PersistStats = PersistStats::new();
    let mut i: usize = 0;
    assert(kinds.take(0) =~= Seq::<RecordKind>::empty());
    while i < records.len()
        invariant
            all == read_views(records@),
            kinds == read_kinds(all),
            i <= records@.len(),
            stats.tallies(kinds.take(i as int)),
        decreases records@.len() - i,
    {
        let kind: RecordKind = records[i].0.kind();
        assert(all[i as int].0 == records@[i as int].0@);
        assert(kinds[i as int] == kind);
        stats.add(kind, Ghost(kinds.take(i as int)));
        assert(kinds.take(i + 1) =~= kinds.take(i as int).push(kind));
        i += 1;
    }
    assert(kinds.take(records@.len() as int) =~= kinds);
    let mut back: Vec<(DiceKey, VersionedGraphNode)> = Vec::new();
    let mut from: Vec<(NodeRecord, Option<DiceValidValue>)> = records;
    let ghost whole = records@;
    while from.len() > 0
        invariant
            whole == records@,
            all == read_views(whole),
            from@.len() + back@.len() == whole.len(),
            from@ =~= whole.take(from@.len() as int),
            forall|j: int|
                #![trigger back@[j]]
                0 <= j < back@.len() ==> back@[j].1.wf() && restored(
                    all[whole.len() - 1 - j].0,
                    all[whole.len() - 1 - j].1,
                ) == Some((back@[j].0, back@[j].1@)),
        decreases from@.len(),
    {
        let ghost n = from@.len() - 1;
        if let Some((record, value)) = from.pop() {
            assert(whole[n] == (record, value));
            assert(all[n] == (record@, value));
            match record.into_node(value) {
                Ok(node) => {
                    back.push(node);
                },
                Err(_) => {
                    assert(restored(all[n].0, all[n].1) is None);
                    assert(!all_restored(all));
                    return None;
                },
            }
        }
    }
    let mut new: Vec<(DiceKey, VersionedGraphNode)> = Vec::new();
    let ghost reversed = back@;
    while back.len() > 0
        invariant
            new@.len() + back@.len() == reversed.len(),
            back@ =~= reversed.take(back@.len() as int),
            forall|j: int|
                #![trigger new@[j]]
                0 <= j < new@.len() ==> new@[j] == reversed[reversed.len() - 1 - j],
        decreases back@.len(),
    {
        if let Some(node) = back.pop() {
            new.push(node);
        }
    }
    proof {
        assert forall|i: int| #![trigger all[i]] 0 <= i < all.len() implies restored(
            all[i].0,
            all[i].1,
        ) is Some by {
            let j = all.len() - 1 - i;
            assert(restored(all[whole.len() - 1 - j].0, all[whole.len() - 1 - j].1) == Some(
                (reversed[j].0, reversed[j].1@),
            ));
        }
        assert forall|i: int| 0 <= i < new@.len() implies #[trigger] node_views(new@)[i]
            == restored_nodes(all)[i] by {
            let j = all.len() - 1 - i;
            assert(new@[i] == reversed[j]);
            assert(restored(all[whole.len() - 1 - j].0, all[whole.len() - 1 - j].1) == Some(
                (reversed[j].0, reversed[j].1@),
            ));
        }
        assert(node_views(new@) =~= restored_nodes(all));
        assert forall|i: int| #![trigger new@[i]] 0 <= i < new@.len() implies new@[i].1.wf() by {
            assert(reversed[reversed.len() - 1 - i].1.wf());
        }
    }
    Some((new, stats))
}

impl Dice {
    /// Ends a load, once it is known whether the header may be used and whether the records
    /// could be read; each leaf comes with its value. Where there is no header to use, where
    /// the records could not be read, and where one of them stands for no node, it is a cold
    /// start, and the state stays as it is. Else the nodes are installed, and it is told how
    /// many became what.
    pub fn finish_load(
        &mut self,
        header: Option<SnapshotHeader>,
        records: Result<Vec<(NodeRecord, Option<DiceValidValue>)>, PersistError>,
    ) -> (r: Option<PersistStats>)
        requires
            old(self).state.wf(),
        ensures
            final(self).state.wf(),
            final(self).key_types == old(self).key_types,
            final(self).pagable_storage == old(self).pagable_storage,
            r is Some <==> header is Some && (records matches Ok(read) && all_restored(
                read_views(read@),
            )),
            r is None ==> final(self).state@ == old(self).state@,
            r matches Some(stats) ==> stats.tallies(read_kinds(read_views(records->Ok_0@)))
                && final(self).state@ == loaded(
                old(self).state@,
                header->0,
                restored_nodes(read_views(records->Ok_0@)),
            ),
    {
        match (header, records) {
            (Some(header), Ok(read)) => match restore_all(read) {
                Some((new, stats)) => {
                    self.state.persist_install(new, VersionNumber::new(header.max_version));
                    Some(stats)
                },
                None => None,
            },
            _ => None,
        }
    }
}

} // verus!
