//! Saving and loading snapshots of the graph.
use vstd::prelude::*;
use vstd::string::*;

use crate::core_state::{
    extract_of, keys_with_value, CoreState, CoreView, PersistNodeExtract, PersistValueExtract,
};
use crate::graph::{installed, node_views};
use crate::nodes::{NodeView, VersionedGraphNode};
use crate::persist::{
    decode, decoded, PersistError, Refusal, SnapshotHeader, SNAPSHOT_MAGIC,
};
use crate::pressure::Dice;
use crate::store::{lemma_lists_unique, lists};
use crate::tracker::TrackerView;
use crate::value::{DiceKey, PagableNodeValue};
use crate::versions::VersionNumber;

verus! {

/// Why a snapshot is not saved or not loaded.
#[derive(Debug, PartialEq, Eq)]
pub enum SnapshotRefusal<E> {
    /// Values could not be paged out.
    PageOut(E),
    /// There is no store to save to.
    SaveWithoutStorage,
    /// There is no store to load from.
    LoadWithoutStorage,
}

impl<E> SnapshotRefusal<E> {
    /// What the refusal says, unless it is another's error.
    pub open spec fn text(self) -> Option<Seq<char>> {
        match self {
            SnapshotRefusal::PageOut(_) => None,
            SnapshotRefusal::SaveWithoutStorage => Some(
                "save_persisted_snapshot requires pagable storage (set_pagable_storage)"@,
            ),
            SnapshotRefusal::LoadWithoutStorage => Some(
                "load_persisted_snapshot requires pagable storage (set_pagable_storage)"@,
            ),
        }
    }

    /// The refusal as a message for people, unless it is another's error.
    pub fn message(&self) -> (r: Option<String>)
        ensures
            match r {
                Some(text) => self.text() == Some(text@),
                None => self.text() is None,
            },
    {
        match self {
            SnapshotRefusal::PageOut(_) => None,
            SnapshotRefusal::SaveWithoutStorage => Some(
                String::from_str(
                    "save_persisted_snapshot requires pagable storage (set_pagable_storage)",
                ),
            ),
            SnapshotRefusal::LoadWithoutStorage => Some(
                String::from_str(
                    "load_persisted_snapshot requires pagable storage (set_pagable_storage)",
                ),
            ),
        }
    }
}

impl Dice {
    /// What goes into a snapshot, once the values were paged out: the current version, and of
    /// every node with a value what is to be saved. A failure to page out comes first; then a
    /// store is needed.
    pub fn save_persisted_snapshot<E>(&self, paged_out: Result<(), E>) -> (r: Result<
        (VersionNumber, Vec<PersistNodeExtract>),
        SnapshotRefusal<E>,
    >)
        requires
            self.state.wf(),
        ensures
            match paged_out {
                Err(e) => r == Err::<(VersionNumber, Vec<PersistNodeExtract>), SnapshotRefusal<E>>(
                    SnapshotRefusal::PageOut(e),
                ),
                Ok(_) => if self.pagable_storage {
                    r matches Ok((version, nodes)) && version == self.state@.versions.current
                        && is_extract(self.state@, nodes@) && ranges_in_order(nodes@)
                } else {
                    r == Err::<(VersionNumber, Vec<PersistNodeExtract>), SnapshotRefusal<E>>(
                        SnapshotRefusal::SaveWithoutStorage,
                    )
                },
            },
    {
        match paged_out {
            Err(e) => Err(SnapshotRefusal::PageOut(e)),
            Ok(_) => {
                if !self.pagable_storage {
                    return Err(SnapshotRefusal::SaveWithoutStorage);
                }
                Ok(self.state.persist_extract())
            },
        }
    }

    /// Whether a snapshot is to be loaded. Without a store that is an error. Else the bytes
    /// of the snapshot's header decide: where there are none, where they are no header, or
    /// where the header does not match the present, it is a cold start.
    pub fn load_persisted_snapshot<E>(
        &self,
        header: Option<&Vec<u8>>,
        expected: &SnapshotHeader,
    ) -> (r: Result<Option<SnapshotHeader>, SnapshotRefusal<E>>)
        ensures
            r == (if !self.pagable_storage {
                Err::<Option<SnapshotHeader>, SnapshotRefusal<E>>(
                    SnapshotRefusal::LoadWithoutStorage,
                )
            } else {
                Ok(loadable(header, *expected))
            }),
    {
        if !self.pagable_storage {
            return Err(SnapshotRefusal::LoadWithoutStorage);
        }
        match header {
            None => Ok(None),
            Some(bytes) => {
                let read: Result<SnapshotHeader, PersistError> = decode(bytes.as_slice());
                match read {
                    Err(_) => Ok(None),
                    Ok(found) => match found.validate(expected) {
                        Ok(_) => Ok(Some(found)),
                        Err(_) => Ok(None),
                    },
                }
            },
        }
    }
}

/// The header of a snapshot that may be loaded.
pub open spec fn loadable(header: Option<&Vec<u8>>, expected: SnapshotHeader) -> Option<
    SnapshotHeader,
> {
    match header {
        None => None,
        Some(bytes) => match decoded::<SnapshotHeader>(bytes@) {
            Ok(found) => if found.reusable_for(expected) {
                Some(found)
            } else {
                None
            },
            Err(_) => None,
        },
    }
}

/// A snapshot whose header names something else than the present does is a cold start, never
/// an error.
pub proof fn law_mismatch_is_a_cold_start(bytes: &Vec<u8>, expected: SnapshotHeader)
    ensures
        loadable(None, expected) is None,
        loadable(Some(bytes), expected) matches Some(found) ==> found.reusable_for(expected),
{
}

/// Whether the list holds what goes into a snapshot of the state, in ascending order of keys.
pub open spec fn is_extract(state: CoreView, nodes: Seq<PersistNodeExtract>) -> bool {
    &&& lists(nodes.map_values(|e: PersistNodeExtract| e.index()), keys_with_value(state.nodes))
    &&& forall|i: int|
        #![trigger nodes[i]]
        0 <= i < nodes.len() ==> Some(nodes[i]@) == extract_of(
            nodes[i].index(),
            state.nodes[nodes[i].index()],
        )
}

/// Whether the versions of each node are in canonical form.
pub open spec fn ranges_in_order(nodes: Seq<PersistNodeExtract>) -> bool {
    forall|i: int|
        #![trigger nodes[i]]
        0 <= i < nodes.len() ==> (nodes[i] matches PersistNodeExtract::Occupied {
            verified_ranges,
            ..
        } ==> verified_ranges.wf())
}

/// What goes into a snapshot, and in which order, depends on the state alone.
pub proof fn law_extract_is_deterministic(
    state: CoreView,
    a: Seq<PersistNodeExtract>,
    b: Seq<PersistNodeExtract>,
)
    requires
        is_extract(state, a),
        is_extract(state, b),
    ensures
        a.map_values(|e: PersistNodeExtract| e@) == b.map_values(|e: PersistNodeExtract| e@),
{
    let of = |e: PersistNodeExtract| e.index();
    lemma_lists_unique(a.map_values(of), b.map_values(of), keys_with_value(state.nodes));
    let (x, y) = (
        a.map_values(|e: PersistNodeExtract| e@),
        b.map_values(|e: PersistNodeExtract| e@),
    );
    assert(a.map_values(of).len() == b.map_values(of).len());
    assert forall|i: int| 0 <= i < x.len() implies x[i] == y[i] by {
        assert(a.map_values(of)[i] == b.map_values(of)[i]);
        assert(Some(a[i]@) == extract_of(a[i].index(), state.nodes[a[i].index()]));
        assert(Some(b[i]@) == extract_of(b[i].index(), state.nodes[b[i].index()]));
    }
    assert(x =~= y);
}

/// What saving and loading ask of the core state.
pub enum PersistRequest {
    /// What goes into a snapshot.
    Extract,
    /// Put in what came out of one.
    Install { nodes: Vec<(DiceKey, VersionedGraphNode)>, at_version: VersionNumber },
}

/// What the core state answers.
pub enum PersistReply {
    Extracted(VersionNumber, Vec<PersistNodeExtract>),
    Installed,
}

impl PersistRequest {
    /// Carries the request out.
    pub fn handle(self, state: &mut CoreState) -> (r: PersistReply)
        requires
            old(state).wf(),
            self matches PersistRequest::Install { nodes, .. } ==> forall|i: int|
                #![trigger nodes@[i]]
                0 <= i < nodes@.len() ==> nodes@[i].1.wf(),
        ensures
            final(state).wf(),
            match self {
                PersistRequest::Extract => final(state)@ == old(state)@ && (
                r matches PersistReply::Extracted(version, nodes) && version
                    == old(state)@.versions.current && is_extract(old(state)@, nodes@)
                    && ranges_in_order(nodes@)),
                PersistRequest::Install { nodes, at_version } => r is Installed && final(state)@
                    == (CoreView {
                    versions: TrackerView { current: at_version, ..old(state)@.versions },
                    nodes: installed(old(state)@.nodes, node_views(nodes@)),
                    ..old(state)@
                }),
            },
    {
        match self {
            PersistRequest::Extract => {
                let (version, nodes) = state.persist_extract();
                PersistReply::Extracted(version, nodes)
            },
            PersistRequest::Install { nodes, at_version } => {
                state.persist_install(nodes, at_version);
                PersistReply::Installed
            },
        }
    }
}

/// A snapshot whose header can be read and names what the present does is loaded.
pub proof fn law_a_matching_snapshot_is_loaded(
    bytes: &Vec<u8>,
    header: SnapshotHeader,
    expected: SnapshotHeader,
)
    requires
        decoded::<SnapshotHeader>(bytes@) == Ok::<SnapshotHeader, Refusal>(header),
        header.magic@ == SNAPSHOT_MAGIC@,
        header.schema_version == expected.schema_version,
        header.binary_hash@ == expected.binary_hash@,
        header.buckconfig_digest@ == expected.buckconfig_digest@,
        header.cell_digest@ == expected.cell_digest@,
        header.prelude_digest@ == expected.prelude_digest@,
    ensures
        loadable(Some(bytes), expected) == Some(header),
{
}

/// What goes in of a node is what it has: of a computed one its deps, its verified versions, its
/// history, and its value where that is; of a leaf its last value and where that begins. All nodes
/// with a value are there.
pub proof fn law_an_extract_is_what_the_node_has(
    state: CoreView,
    nodes: Seq<PersistNodeExtract>,
    k: u32,
)
    requires
        is_extract(state, nodes),
    ensures
        (exists|i: int| #![trigger nodes[i]] 0 <= i < nodes.len() && nodes[i].index() == k) <==> (
        state.nodes.contains_key(k) && !(state.nodes[k] is Vacant)),
        forall|i: int|
            #![trigger nodes[i]]
            0 <= i < nodes.len() && nodes[i].index() == k ==> match nodes[i] {
                PersistNodeExtract::Occupied {
                    deps,
                    verified_ranges,
                    dirtied_history,
                    value,
                    ..
                } => state.nodes[k] matches NodeView::Occupied {
                    value: kept,
                    deps: read,
                    verified,
                    dirtied,
                    ..
                } && deps@ == read && verified_ranges.versions() == verified && dirtied_history@
                    == dirtied && match value {
                    PersistValueExtract::Paged(at) => kept == PagableNodeValue::PagedOut(at),
                    PersistValueExtract::Hydrated(held) => kept == PagableNodeValue::Fresh(held)
                        || kept == PagableNodeValue::Recomputed(held) || kept
                        == PagableNodeValue::NonPageable(held),
                },
                PersistNodeExtract::Injected { first_valid_version, value, .. } =>
                    state.nodes[k] matches NodeView::Injected { values } && values.last() == (
                    first_valid_version,
                    value,
                ),
            },
{
    let keys = nodes.map_values(|e: PersistNodeExtract| e.index());
    assert(keys.contains(k) <==> keys_with_value(state.nodes).contains(k));
    if keys.contains(k) {
        let i = choose|i: int| 0 <= i < keys.len() && keys[i] == k;
        assert(nodes[i].index() == k);
    }
    assert forall|i: int|
        #![trigger nodes[i]]
        0 <= i < nodes.len() && nodes[i].index() == k implies keys.contains(k) && Some(nodes[i]@)
        == extract_of(k, state.nodes[k]) by {
        assert(keys[i] == k);
    }
}

} // verus!
