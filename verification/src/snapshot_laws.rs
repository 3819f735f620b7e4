//! What holds of snapshots across saving and loading.
use vstd::prelude::*;

use crate::core_laws::{distinct_keys, law_installed_nodes_are_found};
use crate::core_state::{
    extract_of, keys_with_value, CoreView, PersistNodeExtract, PersistValueExtract,
};
use crate::force_dirty::ForceDirtyView;
use crate::graph::{chain, depends_on, installed, reads};
use crate::graph_types::{is_latest_until, lookup, LookupView};
use crate::nodes::{injected_at, NodeView};
use crate::persist::{
    law_force_dirty_round_trip, law_stored_ranges_round_trip, law_version_ranges_round_trip,
    restored_force_dirty, restored_ranges, stored_force_dirty, stored_ranges, SnapshotHeader, Wire,
    SNAPSHOT_MAGIC,
};
use crate::persist_ext::{is_extract, ranges_in_order};
use crate::snapshot::{
    all_restored, count, loaded, name_of_type, restored, restored_nodes, snapshot_header,
    PersistStats, RecordKind, RecordView, SaveView,
};
use crate::store::ascending;
use crate::value::{DataKey, DiceKey, DiceValidValue};
use crate::versions::{covers, lemma_same_cover, VersionNumber};

verus! {

/// What is written is written of a node that is not dropped, and of each of those something is.
proof fn lemma_written(save: SaveView, n: int, r: RecordView)
    requires
        0 <= n <= save.nodes.len(),
    ensures
        save.records(n).contains(r) <==> exists|i: int|
            0 <= i < n && !(save.kind(i) is Dropped) && r == #[trigger] save.record(i),
    decreases n,
{
    if n > 0 {
        lemma_written(save, n - 1, r);
        let front = save.records(n - 1);
        if !(save.kind(n - 1) is Dropped) {
            let all = front.push(save.record(n - 1));
            if front.contains(r) {
                let j = choose|j: int| 0 <= j < front.len() && front[j] == r;
                assert(all[j] == r);
            }
            assert(all[front.len() as int] == save.record(n - 1));
            if all.contains(r) {
                let j = choose|j: int| 0 <= j < all.len() && all[j] == r;
                if j < front.len() {
                    assert(front[j] == r);
                }
            }
        }
        if exists|i: int| 0 <= i < n && !(save.kind(i) is Dropped) && r == #[trigger] save.record(i) {
            let i = choose|i: int|
                0 <= i < n && !(save.kind(i) is Dropped) && r == #[trigger] save.record(i);
            if i < n - 1 {
                assert(front.contains(r));
            }
        }
    }
}

/// A record tells what became of its node.
proof fn lemma_record_kind(save: SaveView, i: int)
    requires
        !(save.kind(i) is Dropped),
    ensures
        save.record(i).kind() == save.kind(i),
        save.record(i).key().index == save.nodes[i].index(),
{
}

/// The value of a denied type is never written: whatever is written of its key says that it is
/// to be computed anew.
pub proof fn law_denied_values_are_not_written(save: SaveView, r: RecordView)
    requires
        save.all_records().contains(r),
        save.deny.contains(name_of_type(save.key_types, r.key().index)),
    ensures
        r.kind() is KeyOnly,
{
    lemma_written(save, save.nodes.len() as int, r);
    let i = choose|i: int|
        0 <= i < save.nodes.len() && !(save.kind(i) is Dropped) && r == #[trigger] save.record(i);
    lemma_record_kind(save, i);
}

/// A value that could not be serialized costs its own recompute and nothing else: after a load
/// into an empty graph its node is to be computed anew, at every version, while a node that read
/// it is found in the store wherever it was verified, and still counts as depending on it and on
/// what it read.
pub proof fn law_key_only_nodes_are_computed_anew(
    records: Seq<(RecordView, Option<DiceValidValue>)>,
    i: int,
    j: int,
    d: u32,
    v: int,
    w: int,
)
    requires
        all_restored(records),
        distinct_keys(restored_nodes(records)),
        0 <= i < records.len(),
        0 <= j < records.len(),
        records[i].0.kind() is KeyOnly,
        records[i].0->deps.contains(DiceKey { index: d }),
        records[j].0.kind() is Persisted,
        records[j].0->deps.contains(records[i].0.key()),
        covers(restored_ranges(records[j].0->ranges), v),
    ensures
        ({
            let nodes = installed(Map::empty(), restored_nodes(records));
            let (a, b) = (records[i].0.key(), records[j].0.key());
            &&& lookup(nodes, a, w) == LookupView::Compute
            &&& lookup(nodes, b, v) matches LookupView::Stored { data_key, .. }
                && records[j].0->Occupied_value == Some(data_key)
            &&& depends_on(nodes, b.index, a.index)
            &&& depends_on(nodes, b.index, d)
        }),
{
    let new = restored_nodes(records);
    let nodes = installed(Map::empty(), new);
    let (a, b) = (records[i].0.key(), records[j].0.key());
    assert(new[i].0 == a && new[j].0 == b);
    law_installed_nodes_are_found(new, a.index);
    law_installed_nodes_are_found(new, b.index);
    assert(nodes[a.index] == new[i].1 && nodes[b.index] == new[j].1);
    assert(reads(nodes, b.index, a.index));
    assert(reads(nodes, a.index, d));
    assert(chain(nodes, seq![a.index, b.index]));
    assert(seq![a.index, b.index].last() == b.index);
    assert(chain(nodes, seq![d, a.index, b.index]));
    assert(seq![d, a.index, b.index].last() == b.index);
}

/// The records that have a value.
pub open spec fn with_value(records: Seq<RecordView>) -> Seq<RecordView> {
    records.filter(|r: RecordView| !(r.kind() is KeyOnly))
}

/// The indices of the keys of the records.
pub open spec fn record_keys(records: Seq<RecordView>) -> Seq<u32> {
    records.map_values(|r: RecordView| r.key().index)
}

/// Records in ascending order of keys are the same if they hold the same.
proof fn lemma_records_unique(a: Seq<RecordView>, b: Seq<RecordView>)
    requires
        ascending(record_keys(a)),
        ascending(record_keys(b)),
        forall|r: RecordView| #[trigger] a.contains(r) <==> b.contains(r),
    ensures
        a == b,
    decreases a.len(),
{
    let (x, y) = (record_keys(a), record_keys(b));
    if a.len() == 0 {
        if b.len() > 0 {
            assert(b.contains(b[0]));
            assert(a.contains(b[0]));
        }
        assert(a =~= b);
    } else {
        assert(a.contains(a[0]));
        assert(b.contains(a[0]));
        let (m, n) = (a.len() - 1, b.len() - 1);
        assert(a[m] == b[n]) by {
            assert(a.contains(a[m]) <==> b.contains(a[m]));
            assert(a.contains(b[n]) <==> b.contains(b[n]));
            assert(a[m] == a[m] && b[n] == b[n]);
            let i = choose|i: int| 0 <= i < a.len() && a[i] == b[n];
            let j = choose|j: int| 0 <= j < b.len() && b[j] == a[m];
            if i < m {
                assert(x[i] < x[m]);
            }
            if j < n {
                assert(y[j] < y[n]);
            }
        }
        let (c, d) = (a.drop_last(), b.drop_last());
        assert forall|i: int, j: int|
            #![trigger record_keys(c)[i], record_keys(c)[j]]
            0 <= i < j < c.len() implies record_keys(c)[i] < record_keys(c)[j] by {
            assert(x[i] < x[j]);
        }
        assert forall|i: int, j: int|
            #![trigger record_keys(d)[i], record_keys(d)[j]]
            0 <= i < j < d.len() implies record_keys(d)[i] < record_keys(d)[j] by {
            assert(y[i] < y[j]);
        }
        assert forall|r: RecordView| #[trigger] c.contains(r) <==> d.contains(r) by {
            assert(a.contains(r) <==> b.contains(r));
            if c.contains(r) {
                let i = choose|i: int| 0 <= i < c.len() && c[i] == r;
                assert(a[i] == r && x[i] < x[m]);
                let j = choose|j: int| 0 <= j < b.len() && b[j] == r;
                assert(d[j] == r);
            }
            if d.contains(r) {
                let i = choose|i: int| 0 <= i < d.len() && d[i] == r;
                assert(b[i] == r && y[i] < y[n]);
                let j = choose|j: int| 0 <= j < a.len() && a[j] == r;
                assert(c[j] == r);
            }
        }
        lemma_records_unique(c, d);
        assert(a =~= c.push(a[m]));
        assert(b =~= d.push(b[n]));
    }
}

/// What is written is in ascending order of keys where the nodes are.
proof fn lemma_written_ascending(save: SaveView, n: int)
    requires
        0 <= n <= save.nodes.len(),
        ascending(save.nodes.map_values(|e: PersistNodeExtract| e.index())),
    ensures
        ascending(record_keys(save.records(n))),
        forall|j: int|
            #![trigger record_keys(save.records(n))[j]]
            0 <= j < save.records(n).len() ==> exists|i: int|
                0 <= i < n && record_keys(save.records(n))[j] == (#[trigger] save.nodes[i]).index(),
    decreases n,
{
    if n > 0 {
        lemma_written_ascending(save, n - 1);
        let front = save.records(n - 1);
        let all = save.records(n);
        let (x, y) = (record_keys(front), record_keys(all));
        let keys = save.nodes.map_values(|e: PersistNodeExtract| e.index());
        assert forall|j: int| #![trigger x[j]] 0 <= j < x.len() implies x[j]
            < save.nodes[n - 1].index() by {
            let i = choose|i: int|
                0 <= i < n - 1 && x[j] == (#[trigger] save.nodes[i]).index();
            assert(keys[i] < keys[n - 1]);
        }
        if !(save.kind(n - 1) is Dropped) {
            lemma_record_kind(save, n - 1);
            assert(y =~= x.push(save.nodes[n - 1].index()));
            assert forall|i: int, j: int|
                #![trigger y[i], y[j]]
                0 <= i < j < y.len() implies y[i] < y[j] by {
                assert(y[i] == x[i]);
                if j < x.len() {
                    assert(x[i] < x[j]);
                }
            }
        }
        assert forall|j: int| #![trigger y[j]] 0 <= j < y.len() implies exists|i: int|
            0 <= i < n && y[j] == (#[trigger] save.nodes[i]).index() by {
            if j < x.len() {
                assert(y[j] == x[j]);
                let i = choose|i: int|
                    0 <= i < n - 1 && x[j] == (#[trigger] save.nodes[i]).index();
                assert(y[j] == save.nodes[i].index());
            } else {
                assert(y[j] == save.nodes[n - 1].index());
            }
        }
    }
}

/// What is left of records in ascending order is in that order, and just what has a value.
proof fn lemma_with_value(records: Seq<RecordView>)
    requires
        ascending(record_keys(records)),
    ensures
        ascending(record_keys(with_value(records))),
        forall|r: RecordView| #[trigger]
            with_value(records).contains(r) <==> records.contains(r) && !(r.kind() is KeyOnly),
    decreases records.len(),
{
    reveal(Seq::filter);
    let kept = with_value(records);
    if records.len() > 0 {
        let front = records.drop_last();
        let n = records.len() - 1;
        let x = record_keys(records);
        assert forall|i: int, j: int|
            #![trigger record_keys(front)[i], record_keys(front)[j]]
            0 <= i < j < front.len() implies record_keys(front)[i] < record_keys(front)[j] by {
            assert(x[i] < x[j]);
        }
        lemma_with_value(front);
        let before = with_value(front);
        assert forall|r: RecordView| #[trigger]
            kept.contains(r) <==> records.contains(r) && !(r.kind() is KeyOnly) by {
            assert(before.contains(r) <==> front.contains(r) && !(r.kind() is KeyOnly));
            if kept.contains(r) {
                let j = choose|j: int| 0 <= j < kept.len() && kept[j] == r;
                if j < before.len() {
                    assert(before[j] == r);
                    let i = choose|i: int| 0 <= i < front.len() && front[i] == r;
                    assert(records[i] == r);
                } else {
                    assert(records[n] == r);
                }
            }
            if records.contains(r) && !(r.kind() is KeyOnly) {
                let i = choose|i: int| 0 <= i < records.len() && records[i] == r;
                if i < n {
                    assert(front[i] == r);
                    let j = choose|j: int| 0 <= j < before.len() && before[j] == r;
                    assert(kept[j] == r);
                } else {
                    assert(kept[before.len() as int] == r);
                }
            }
        }
        let y = record_keys(kept);
        assert forall|i: int, j: int|
            #![trigger y[i], y[j]]
            0 <= i < j < y.len() implies y[i] < y[j] by {
            let z = record_keys(before);
            assert(before[i] == kept[i] && z[i] == y[i]);
            if j < before.len() {
                assert(z[j] == y[j]);
                assert(z[i] < z[j]);
            } else {
                assert(before.contains(before[i]));
                assert(front.contains(before[i]));
                let k = choose|k: int| 0 <= k < front.len() && front[k] == before[i];
                assert(x[k] < x[n]);
            }
        }
    }
}

/// What was read back from the stored form of a history is stored as before.
proof fn lemma_dirtied_again(stored: (Seq<u64>, u8), h: ForceDirtyView)
    requires
        stored == stored_force_dirty(h),
    ensures
        restored_force_dirty(stored) matches Some(back) && stored_force_dirty(back) == stored,
{
    law_force_dirty_round_trip(h);
    let back = restored_force_dirty(stored)->0;
    if h.versions.len() > 0 {
        assert(back == h);
    } else {
        assert(back.versions.len() == 0);
    }
}

/// What is read from a place is what is stored there: where values are stored by what they
/// are, each leaf that comes back would be stored where its record says.
pub open spec fn leaves_come_back(
    records: Seq<(RecordView, Option<DiceValidValue>)>,
    place: spec_fn(u64) -> Option<DataKey>,
) -> bool {
    forall|i: int|
        #![trigger records[i]]
        0 <= i < records.len() ==> (records[i].0 matches RecordView::Injected { value, .. }
            ==> records[i].1 matches Some(read) && place(read.class) == Some(value))
}

/// Where values are stored by what they are: whatever of a node's value was in memory was
/// stored where its class is.
pub open spec fn stored_by_class(save: SaveView, place: spec_fn(u64) -> Option<DataKey>) -> bool {
    &&& save.stored.len() == save.nodes.len()
    &&& forall|i: int|
        #![trigger save.nodes[i]]
        0 <= i < save.nodes.len() ==> match save.nodes[i] {
            PersistNodeExtract::Occupied { value, .. } => value matches PersistValueExtract::Hydrated(
                held,
            ) ==> save.stored[i] == place(held.class),
            PersistNodeExtract::Injected { value, .. } => save.stored[i] == place(value.class),
        }
}

/// The records with the values that were read for them.
pub open spec fn paired(records: Seq<RecordView>, values: Seq<Option<DiceValidValue>>) -> Seq<
    (RecordView, Option<DiceValidValue>),
> {
    Seq::new(records.len(), |i: int| (records[i], values[i]))
}

/// A record with a value, loaded and saved again, is the same record.
proof fn lemma_record_again(
    first: SaveView,
    i: int,
    read: Option<DiceValidValue>,
    second: SaveView,
    j: int,
    place: spec_fn(u64) -> Option<DataKey>,
)
    requires
        0 <= i < first.nodes.len(),
        0 <= j < second.nodes.len(),
        second.key_types == first.key_types,
        second.deny == first.deny,
        stored_by_class(second, place),
        ranges_in_order(second.nodes),
        first.kind(i) is Persisted || first.kind(i) is Injected,
        first.record(i) matches RecordView::Injected { value, .. } ==> read matches Some(leaf)
            && place(leaf.class) == Some(value),
        second.nodes[j].index() == first.nodes[i].index(),
        restored(first.record(i), read) matches Some((_, node)) && extract_of(
            first.nodes[i].index(),
            node,
        ) == Some(second.nodes[j]@),
    ensures
        second.kind(j) == first.kind(i),
        second.record(j) == first.record(i),
{
    lemma_record_kind(first, i);
    match first.nodes[i] {
        PersistNodeExtract::Occupied { verified_ranges, dirtied_history, .. } => {
            let ranges = stored_ranges(verified_ranges@);
            let dirtied = stored_force_dirty(dirtied_history@);
            lemma_dirtied_again(dirtied, dirtied_history@);
            if let PersistNodeExtract::Occupied { verified_ranges: again, .. } = second.nodes[j] {
                assert(again.wf());
                assert forall|v: int| #[trigger]
                    covers(again@, v) <==> covers(restored_ranges(ranges), v) by {
                    assert(again.versions().contains(v) <==> covers(restored_ranges(ranges), v));
                }
                lemma_same_cover(again@, restored_ranges(ranges));
                law_stored_ranges_round_trip(ranges);
            }
        },
        PersistNodeExtract::Injected { .. } => {
            assert(second.nodes[j] is Injected);
        },
    }
}

/// Saving, loading what was saved into an empty state, and saving again under the same deny list
/// writes the same records in the same order, but for those without a value: what they stand for
/// has no value to be saved again. Where there are none, the header is the same too, byte for
/// byte. Values are stored by what they are.
pub proof fn law_save_load_save_writes_the_same(
    state: CoreView,
    first: SaveView,
    identity: SnapshotHeader,
    values: Seq<Option<DiceValidValue>>,
    fresh: CoreView,
    second: SaveView,
    place: spec_fn(u64) -> Option<DataKey>,
)
    requires
        is_extract(state, first.nodes),
        ranges_in_order(first.nodes),
        all_restored(paired(first.all_records(), values)),
        leaves_come_back(paired(first.all_records(), values), place),
        fresh.nodes == Map::<u32, NodeView>::empty(),
        is_extract(
            loaded(
                fresh,
                snapshot_header(identity, first.all_records().len(), state.versions.current),
                restored_nodes(paired(first.all_records(), values)),
            ),
            second.nodes,
        ),
        ranges_in_order(second.nodes),
        second.key_types == first.key_types,
        second.deny == first.deny,
        stored_by_class(second, place),
    ensures
        second.all_records() == with_value(first.all_records()),
        (forall|r: RecordView| #[trigger]
            first.all_records().contains(r) ==> !(r.kind() is KeyOnly)) ==> {
            &&& second.all_records() == first.all_records()
            &&& SnapshotHeader::wire(
                snapshot_header(
                    identity,
                    second.all_records().len(),
                    loaded(
                        fresh,
                        snapshot_header(
                            identity,
                            first.all_records().len(),
                            state.versions.current,
                        ),
                        restored_nodes(paired(first.all_records(), values)),
                    ).versions.current,
                ),
            ) == SnapshotHeader::wire(
                snapshot_header(identity, first.all_records().len(), state.versions.current),
            )
        },
{
    let written = first.all_records();
    let n = first.nodes.len() as int;
    let m = second.nodes.len() as int;
    let pairs = paired(written, values);
    let new = restored_nodes(pairs);
    let header = snapshot_header(identity, written.len(), state.versions.current);
    let after = loaded(fresh, header, new);
    let of = |e: PersistNodeExtract| e.index();
    let (x, y) = (first.nodes.map_values(of), second.nodes.map_values(of));
    lemma_written_ascending(first, n);
    lemma_written_ascending(second, m);
    let keys = record_keys(written);
    assert(distinct_keys(new)) by {
        assert forall|i: int, j: int|
            #![trigger new[i], new[j]]
            0 <= i < j < new.len() implies new[i].0 != new[j].0 by {
            assert(pairs[i].0 == written[i] && pairs[j].0 == written[j]);
            assert(keys[i] < keys[j]);
        }
    }
    lemma_with_value(written);
    let again = second.all_records();
    // A record with a value, and the node of the second save with its key.
    assert forall|i: int, q: int, j: int|
        #![trigger first.record(i), written[q], second.nodes[j]]
        0 <= i < n && 0 <= q < written.len() && 0 <= j < m && !(first.kind(i) is Dropped)
            && written[q] == first.record(i) && second.nodes[j].index()
            == first.nodes[i].index() implies !(first.kind(i) is KeyOnly) && second.kind(j) == first.kind(i) && second.record(j)
        == first.record(i) by {
        lemma_record_kind(first, i);
        let k = first.nodes[i].index();
        assert(pairs[q] == (written[q], values[q]));
        assert(new[q].0.index == k);
        law_installed_nodes_are_found(new, k);
        assert(after.nodes[k] == new[q].1);
        assert(y[j] == k);
        assert(y.contains(k));
        assert(!(after.nodes[k] is Vacant));
        assert(Some(second.nodes[j]@) == extract_of(k, new[q].1));
        lemma_record_again(first, i, values[q], second, j, place);
    }
    assert forall|r: RecordView| #[trigger] again.contains(r) <==> with_value(written).contains(
        r,
    ) by {
        lemma_written(first, n, r);
        lemma_written(second, m, r);
        if again.contains(r) {
            let j = choose|j: int|
                0 <= j < m && !(second.kind(j) is Dropped) && r == #[trigger] second.record(j);
            let k = second.nodes[j].index();
            assert(y[j] == k);
            assert(y.contains(k));
            law_installed_nodes_are_found(new, k);
            let q = choose|q: int| 0 <= q < new.len() && (#[trigger] new[q]).0.index == k;
            assert(pairs[q].0 == written[q]);
            assert(written.contains(written[q]));
            lemma_written(first, n, written[q]);
            let i = choose|i: int|
                0 <= i < n && !(first.kind(i) is Dropped) && written[q] == #[trigger] first.record(
                    i,
                );
            lemma_record_kind(first, i);
            assert(restored(pairs[q].0, pairs[q].1)->0 == new[q]);
            assert(new[q].0 == written[q].key());
            assert(second.nodes[j].index() == first.nodes[i].index());
            assert(second.record(j) == first.record(i));
            assert(!(r.kind() is KeyOnly));
        }
        if with_value(written).contains(r) {
            let i = choose|i: int|
                0 <= i < n && !(first.kind(i) is Dropped) && r == #[trigger] first.record(i);
            lemma_record_kind(first, i);
            let q = choose|q: int| 0 <= q < written.len() && written[q] == r;
            assert(pairs[q] == (written[q], values[q]));
            let k = first.nodes[i].index();
            law_installed_nodes_are_found(new, k);
            assert(new[q].0.index == k);
            assert(after.nodes[k] == new[q].1);
            assert(!(new[q].1 is Vacant));
            assert(keys_with_value(after.nodes).contains(k));
            assert(y.contains(k));
            let j = choose|j: int| 0 <= j < y.len() && y[j] == k;
            assert(second.nodes[j].index() == k);
            assert(second.record(j) == first.record(i));
            assert(!(second.kind(j) is Dropped));
        }
    }
    lemma_records_unique(again, with_value(written));
    if forall|r: RecordView| #[trigger] written.contains(r) ==> !(r.kind() is KeyOnly) {
        assert forall|r: RecordView| #[trigger] with_value(written).contains(r)
            <==> written.contains(r) by {}
        lemma_records_unique(with_value(written), written);
    }
}

/// The nodes that are there once what was saved was loaded into an empty graph, each leaf with
/// the value that was read for its record.
pub open spec fn nodes_after_load(save: SaveView, values: Seq<Option<DiceValidValue>>) -> Map<
    u32,
    NodeView,
> {
    installed(Map::empty(), restored_nodes(paired(save.all_records(), values)))
}

/// The keys of what was saved are distinct.
proof fn lemma_saved_keys_distinct(
    state: CoreView,
    save: SaveView,
    values: Seq<Option<DiceValidValue>>,
)
    requires
        is_extract(state, save.nodes),
        all_restored(paired(save.all_records(), values)),
    ensures
        distinct_keys(restored_nodes(paired(save.all_records(), values))),
{
    let written = save.all_records();
    let pairs = paired(written, values);
    let new = restored_nodes(pairs);
    lemma_written_ascending(save, save.nodes.len() as int);
    let keys = record_keys(written);
    assert forall|i: int, j: int|
        #![trigger new[i], new[j]]
        0 <= i < j < new.len() implies new[i].0 != new[j].0 by {
        assert(pairs[i].0 == written[i] && pairs[j].0 == written[j]);
        assert(keys[i] < keys[j]);
    }
}

/// Where a node that was not dropped is written, and what is there after the load.
proof fn lemma_loaded(
    state: CoreView,
    save: SaveView,
    values: Seq<Option<DiceValidValue>>,
    i: int,
) -> (q: int)
    requires
        is_extract(state, save.nodes),
        all_restored(paired(save.all_records(), values)),
        0 <= i < save.nodes.len(),
        !(save.kind(i) is Dropped),
    ensures
        0 <= q < save.all_records().len(),
        save.all_records()[q] == save.record(i),
        nodes_after_load(save, values).contains_key(save.nodes[i].index()),
        restored(save.record(i), values[q]) matches Some((_, node)) && nodes_after_load(
            save,
            values,
        )[save.nodes[i].index()] == node,
{
    let written = save.all_records();
    let pairs = paired(written, values);
    let new = restored_nodes(pairs);
    lemma_saved_keys_distinct(state, save, values);
    lemma_written(save, save.nodes.len() as int, save.record(i));
    lemma_record_kind(save, i);
    assert(written.contains(save.record(i)));
    let q = choose|q: int| 0 <= q < written.len() && written[q] == save.record(i);
    assert(pairs[q] == (written[q], values[q]));
    assert(new[q].0.index == save.nodes[i].index());
    law_installed_nodes_are_found(new, save.nodes[i].index());
    q
}

/// What is there after a load was written.
proof fn lemma_loaded_from(
    state: CoreView,
    save: SaveView,
    values: Seq<Option<DiceValidValue>>,
    k: u32,
) -> (i: int)
    requires
        is_extract(state, save.nodes),
        all_restored(paired(save.all_records(), values)),
        nodes_after_load(save, values).contains_key(k),
    ensures
        0 <= i < save.nodes.len(),
        save.nodes[i].index() == k,
        !(save.kind(i) is Dropped),
{
    let written = save.all_records();
    let pairs = paired(written, values);
    let new = restored_nodes(pairs);
    lemma_saved_keys_distinct(state, save, values);
    law_installed_nodes_are_found(new, k);
    let q = choose|q: int| 0 <= q < new.len() && (#[trigger] new[q]).0.index == k;
    assert(pairs[q] == (written[q], values[q]));
    assert(written.contains(written[q]));
    lemma_written(save, save.nodes.len() as int, written[q]);
    let i = choose|i: int|
        0 <= i < save.nodes.len() && !(save.kind(i) is Dropped) && written[q] == #[trigger]
            save.record(i);
    lemma_record_kind(save, i);
    assert(restored(pairs[q].0, pairs[q].1) is Some);
    assert(new[q].0 == written[q].key());
    i
}

/// A computed node comes back with the deps and the verified versions that it had, and with a
/// history that separates the same versions.
proof fn lemma_restored_skeleton(
    state: CoreView,
    save: SaveView,
    i: int,
    value: Option<DiceValidValue>,
)
    requires
        is_extract(state, save.nodes),
        0 <= i < save.nodes.len(),
        save.nodes[i] is Occupied,
    ensures
        state.nodes[save.nodes[i].index()] is Occupied,
        restored(save.record(i), value) matches Some((_, node)) ==> {
            let had = state.nodes[save.nodes[i].index()];
            &&& node.deps() == had.deps()
            &&& forall|a: int, b: int| #[trigger]
                node.history().separates(a, b) == had.history().separates(a, b)
            &&& node.history().versions == had.history().versions
            &&& node matches NodeView::Occupied { verified, .. } ==> verified == had->verified
        },
{
    let k = save.nodes[i].index();
    assert(Some(save.nodes[i]@) == extract_of(k, state.nodes[k]));
    if let PersistNodeExtract::Occupied { verified_ranges, dirtied_history, .. } = save.nodes[i] {
        law_version_ranges_round_trip(verified_ranges@);
        law_force_dirty_round_trip(dirtied_history@);
        let back = restored_ranges(stored_ranges(verified_ranges@));
        assert(Set::new(|v: int| covers(back, v)) =~= verified_ranges.versions());
    }
}

/// What is written of a computed node, with its value or without, is what the node has: all that it
/// read, in order; the number of each version that it was forced dirty at, in order; and ranges
/// that hold just the versions that it was verified at.
pub proof fn law_a_record_holds_what_the_node_has(state: CoreView, save: SaveView, i: int, v: int)
    requires
        is_extract(state, save.nodes),
        0 <= i < save.nodes.len(),
        save.nodes[i] is Occupied,
    ensures
        ({
            let had = state.nodes[save.nodes[i].index()];
            save.record(i) matches RecordView::Occupied { key, deps, ranges, dirtied, .. } && {
                &&& key.index == save.nodes[i].index()
                &&& deps == had.deps()
                &&& dirtied.0.len() == had.history().versions.len()
                &&& forall|j: int|
                    #![trigger dirtied.0[j]]
                    0 <= j < dirtied.0.len() ==> dirtied.0[j] == had.history().versions[j].number
                &&& had->verified.contains(v) <==> exists|j: int|
                    #![trigger ranges[j]]
                    0 <= j < ranges.len() && ranges[j].0 <= v && match ranges[j].1 {
                        Some(end) => v < end,
                        None => true,
                    }
            }
        }),
{
    let k = save.nodes[i].index();
    assert(Some(save.nodes[i]@) == extract_of(k, state.nodes[k]));
    if let PersistNodeExtract::Occupied { verified_ranges, dirtied_history, .. } = save.nodes[i] {
        let ranges = stored_ranges(verified_ranges@);
        assert forall|j: int| #![trigger ranges[j]] 0 <= j < ranges.len() implies (ranges[j].0 <= v
            && match ranges[j].1 {
            Some(end) => v < end,
            None => true,
        }) == verified_ranges@[j].has(v) by {}
        if covers(verified_ranges@, v) {
            let j = choose|j: int| 0 <= j < verified_ranges@.len() && verified_ranges@[j].has(v);
            assert(ranges[j].0 <= v);
        }
    }
}

/// A computed value that is stored already, or could be stored, and whose key is of no denied type
/// survives a save and a load: at every version the key is found, to be checked or to be computed
/// just as before, and where it is found its value is where it was stored. So a key that was forced
/// dirty before the save has to be computed after the load.
pub proof fn law_what_is_saved_comes_back(
    state: CoreView,
    save: SaveView,
    values: Seq<Option<DiceValidValue>>,
    i: int,
    data_key: DataKey,
    w: int,
)
    requires
        is_extract(state, save.nodes),
        save.stored.len() == save.nodes.len(),
        all_restored(paired(save.all_records(), values)),
        0 <= i < save.nodes.len(),
        save.nodes[i] matches PersistNodeExtract::Occupied { value, .. } && match value {
            PersistValueExtract::Paged(at) => at == data_key,
            PersistValueExtract::Hydrated(_) => save.stored[i] == Some(data_key),
        },
        !save.deny.contains(name_of_type(save.key_types, save.nodes[i].index())),
    ensures
        ({
            let k = DiceKey { index: save.nodes[i].index() };
            let after = lookup(nodes_after_load(save, values), k, w);
            match lookup(state.nodes, k, w) {
                LookupView::Match { valid, .. } => after matches LookupView::Stored {
                    data_key: found,
                    valid: versions,
                    ..
                } && found == data_key && versions == valid,
                LookupView::Stored { valid, .. } => after matches LookupView::Stored {
                    data_key: found,
                    valid: versions,
                    ..
                } && found == data_key && versions == valid,
                LookupView::CheckDeps { prev_verified_version, deps, .. } =>
                    after matches LookupView::CheckDeps {
                    prev_verified_version: prev,
                    deps: found,
                    ..
                } && prev == prev_verified_version && found == deps,
                LookupView::Compute => after == LookupView::Compute,
            }
        }),
{
    let q = lemma_loaded(state, save, values, i);
    lemma_restored_skeleton(state, save, i, values[q]);
    let k = save.nodes[i].index();
    let keys = save.nodes.map_values(|e: PersistNodeExtract| e.index());
    assert(keys[i] == k);
    assert(keys.contains(k));
    assert(keys_with_value(state.nodes).contains(k));
    let had = state.nodes[k];
    let now = nodes_after_load(save, values)[k];
    assert(now is Occupied);
    assert(now->verified == had->verified);
    assert forall|p: int|
        is_latest_until(had->verified, w, p) && !had.history().separates(w, p) <==> #[trigger]
        is_latest_until(now->verified, w, p) && !now.history().separates(w, p) by {}
}

/// A computed value that could not be stored, or whose key is of a denied type, is to be computed
/// after a save and a load, at every version; what it read and where it was forced dirty is still
/// known. A leaf of which that is true is not there at all.
pub proof fn law_what_is_not_saved_is_computed(
    state: CoreView,
    save: SaveView,
    values: Seq<Option<DiceValidValue>>,
    i: int,
    w: int,
)
    requires
        is_extract(state, save.nodes),
        save.stored.len() == save.nodes.len(),
        all_restored(paired(save.all_records(), values)),
        0 <= i < save.nodes.len(),
        save.deny.contains(name_of_type(save.key_types, save.nodes[i].index())) || (match save.nodes[i] {
            PersistNodeExtract::Occupied { value, .. } => value is Hydrated && save.stored[i] is None,
            PersistNodeExtract::Injected { .. } => save.stored[i] is None,
        }),
    ensures
        lookup(
            nodes_after_load(save, values),
            DiceKey { index: save.nodes[i].index() },
            w,
        ) == LookupView::Compute,
        save.nodes[i] is Occupied ==> nodes_after_load(save, values).contains_key(
            save.nodes[i].index(),
        ) && nodes_after_load(save, values)[save.nodes[i].index()].deps()
            == state.nodes[save.nodes[i].index()].deps() && nodes_after_load(
            save,
            values,
        )[save.nodes[i].index()].history().versions
            == state.nodes[save.nodes[i].index()].history().versions,
        save.nodes[i] is Injected ==> !nodes_after_load(save, values).contains_key(
            save.nodes[i].index(),
        ),
{
    let k = save.nodes[i].index();
    if save.nodes[i] is Occupied {
        let q = lemma_loaded(state, save, values, i);
        lemma_restored_skeleton(state, save, i, values[q]);
    } else if nodes_after_load(save, values).contains_key(k) {
        let j = lemma_loaded_from(state, save, values, k);
        let keys = save.nodes.map_values(|e: PersistNodeExtract| e.index());
        assert(keys[i] == k && keys[j] == k);
        if i < j {
            assert(keys[i] < keys[j]);
        }
        if j < i {
            assert(keys[j] < keys[i]);
        }
    }
}

/// A leaf that could be stored and is of no denied type comes back: from where its last value
/// begins on, it has the value that was read for its record, which says where that is stored.
pub proof fn law_saved_leaves_come_back(
    state: CoreView,
    save: SaveView,
    values: Seq<Option<DiceValidValue>>,
    i: int,
    data_key: DataKey,
    w: int,
) -> (q: int)
    requires
        is_extract(state, save.nodes),
        save.stored.len() == save.nodes.len(),
        all_restored(paired(save.all_records(), values)),
        0 <= i < save.nodes.len(),
        save.nodes[i] is Injected,
        save.stored[i] == Some(data_key),
        !save.deny.contains(name_of_type(save.key_types, save.nodes[i].index())),
    ensures
        0 <= q < save.all_records().len(),
        ({
            let k = save.nodes[i].index();
            let begin = state.nodes[k]->values.last().0;
            &&& state.nodes[k] is Injected
            &&& save.all_records()[q] == (RecordView::Injected {
                key: DiceKey { index: k },
                first_valid_version: begin.number,
                value: data_key,
            })
            &&& begin.number <= w ==> (lookup(
                nodes_after_load(save, values),
                DiceKey { index: k },
                w,
            ) matches LookupView::Match { value, .. } && values[q] == Some(value))
            &&& w < begin.number ==> lookup(
                nodes_after_load(save, values),
                DiceKey { index: k },
                w,
            ) == LookupView::Compute
        }),
{
    let q = lemma_loaded(state, save, values, i);
    let k = save.nodes[i].index();
    assert(Some(save.nodes[i]@) == extract_of(k, state.nodes[k]));
    let node = nodes_after_load(save, values)[k];
    let only = node->values;
    assert(only.len() == 1);
    assert(only.drop_last() =~= Seq::empty());
    assert(injected_at(only.drop_last(), w) is None);
    q
}

/// What had to be computed before a save has to be computed after the load: for every state, every
/// key and every version.
pub proof fn law_nothing_becomes_valid_by_a_save_and_load(
    state: CoreView,
    save: SaveView,
    values: Seq<Option<DiceValidValue>>,
    k: DiceKey,
    w: int,
)
    requires
        is_extract(state, save.nodes),
        save.stored.len() == save.nodes.len(),
        all_restored(paired(save.all_records(), values)),
        state.nodes.contains_key(k.index) ==> (state.nodes[k.index] matches NodeView::Injected {
            values: given,
        } ==> given.len() > 0),
        lookup(state.nodes, k, w) == LookupView::Compute,
    ensures
        lookup(nodes_after_load(save, values), k, w) == LookupView::Compute,
{
    if nodes_after_load(save, values).contains_key(k.index) {
        let i = lemma_loaded_from(state, save, values, k.index);
        let keys = save.nodes.map_values(|e: PersistNodeExtract| e.index());
        assert(keys[i] == k.index);
        assert(keys.contains(k.index));
        assert(Some(save.nodes[i]@) == extract_of(k.index, state.nodes[k.index]));
        match save.nodes[i] {
            PersistNodeExtract::Occupied { value, .. } => {
                if save.kind(i) is Persisted {
                    let data_key = match value {
                        PersistValueExtract::Paged(at) => at,
                        PersistValueExtract::Hydrated(_) => save.stored[i]->0,
                    };
                    law_what_is_saved_comes_back(state, save, values, i, data_key, w);
                } else {
                    law_what_is_not_saved_is_computed(state, save, values, i, w);
                }
            },
            PersistNodeExtract::Injected { .. } => {
                let _ = law_saved_leaves_come_back(
                    state,
                    save,
                    values,
                    i,
                    save.stored[i]->0,
                    w,
                );
            },
        }
    }
}

/// How many of the records are of the given kind.
pub open spec fn records_of(records: Seq<RecordView>, kind: RecordKind) -> nat {
    records.filter(|r: RecordView| r.kind() == kind).len()
}

/// The counts up to a node.
proof fn lemma_counts(save: SaveView, n: int)
    requires
        0 <= n <= save.nodes.len(),
    ensures
        count(save.kinds().take(n), RecordKind::Persisted) == records_of(
            save.records(n),
            RecordKind::Persisted,
        ),
        count(save.kinds().take(n), RecordKind::Injected) == records_of(
            save.records(n),
            RecordKind::Injected,
        ),
        count(save.kinds().take(n), RecordKind::KeyOnly) == records_of(
            save.records(n),
            RecordKind::KeyOnly,
        ),
        save.records(n).len() + count(save.kinds().take(n), RecordKind::Dropped) == n,
        count(save.kinds().take(n), RecordKind::Persisted) + count(
            save.kinds().take(n),
            RecordKind::Injected,
        ) + count(save.kinds().take(n), RecordKind::KeyOnly) + count(
            save.kinds().take(n),
            RecordKind::Dropped,
        ) == n,
    decreases n,
{
    reveal(Seq::filter);
    if n > 0 {
        lemma_counts(save, n - 1);
        assert(save.kinds().take(n).drop_last() =~= save.kinds().take(n - 1));
        assert(save.kinds().take(n).last() == save.kind(n - 1));
        if !(save.kind(n - 1) is Dropped) {
            lemma_record_kind(save, n - 1);
            let front = save.records(n - 1);
            assert(save.records(n).drop_last() =~= front);
        }
    }
}

/// Every node is counted once: as written with its value, as a leaf, as written without its value,
/// or as dropped; and the first three counts are those of the records.
pub proof fn law_every_node_is_counted_once(save: SaveView, stats: PersistStats)
    requires
        stats.tallies(save.kinds()),
    ensures
        stats.nodes_persisted + stats.nodes_injected + stats.keys_only
            + stats.dropped_unserializable == save.nodes.len(),
        stats.nodes_persisted == records_of(save.all_records(), RecordKind::Persisted),
        stats.nodes_injected == records_of(save.all_records(), RecordKind::Injected),
        stats.keys_only == records_of(save.all_records(), RecordKind::KeyOnly),
        save.all_records().len() == save.nodes.len() - stats.dropped_unserializable,
{
    lemma_counts(save, save.nodes.len() as int);
    assert(save.kinds().take(save.nodes.len() as int) =~= save.kinds());
}

/// The header of a snapshot may be used where the same describes the present as when it was taken,
/// and tells at which version that was.
pub proof fn law_the_header_of_a_snapshot_is_reusable(
    identity: SnapshotHeader,
    records: nat,
    version: VersionNumber,
)
    requires
        identity.magic@ == SNAPSHOT_MAGIC@,
    ensures
        snapshot_header(identity, records, version).reusable_for(identity),
        snapshot_header(identity, records, version).max_version == version.number,
        records <= u64::MAX ==> snapshot_header(identity, records, version).node_count == records,
{
}

/// A load resumes the numbering of versions at the one that the snapshot was taken at.
pub proof fn law_a_load_resumes_the_numbering(
    fresh: CoreView,
    identity: SnapshotHeader,
    records: nat,
    version: VersionNumber,
    new: Seq<(DiceKey, NodeView)>,
)
    ensures
        loaded(fresh, snapshot_header(identity, records, version), new).versions.current == version,
        loaded(fresh, snapshot_header(identity, records, version), new).versions.active
            == fresh.versions.active,
{
}

/// A load leaves what it has no record of: the nodes under other keys, the transactions and the
/// tasks that are being cancelled.
pub proof fn law_a_load_leaves_the_rest(
    state: CoreView,
    header: SnapshotHeader,
    new: Seq<(DiceKey, NodeView)>,
    k: u32,
)
    requires
        forall|i: int| #![trigger new[i]] 0 <= i < new.len() ==> new[i].0.index != k,
    ensures
        loaded(state, header, new).nodes.contains_key(k) <==> state.nodes.contains_key(k),
        state.nodes.contains_key(k) ==> loaded(state, header, new).nodes[k] == state.nodes[k],
        loaded(state, header, new).versions.active == state.versions.active,
        loaded(state, header, new).pending == state.pending,
{
    lemma_others_stay(state.nodes, new, k);
}

/// Putting nodes in leaves those under other keys.
proof fn lemma_others_stay(nodes: Map<u32, NodeView>, new: Seq<(DiceKey, NodeView)>, k: u32)
    requires
        forall|i: int| #![trigger new[i]] 0 <= i < new.len() ==> new[i].0.index != k,
    ensures
        installed(nodes, new).contains_key(k) <==> nodes.contains_key(k),
        nodes.contains_key(k) ==> installed(nodes, new)[k] == nodes[k],
    decreases new.len(),
{
    if new.len() > 0 {
        let front = new.drop_last();
        assert forall|i: int| #![trigger front[i]] 0 <= i < front.len() implies front[i].0.index
            != k by {
            assert(front[i] == new[i]);
        }
        lemma_others_stay(nodes, front, k);
        assert(new.last() == new[new.len() - 1]);
    }
}

/// What was saved can be loaded, whatever the state was: where each leaf comes with a value, every
/// record stands for a node.
pub proof fn law_what_is_saved_can_be_loaded(
    save: SaveView,
    values: Seq<Option<DiceValidValue>>,
)
    requires
        ranges_in_order(save.nodes),
        forall|q: int|
            #![trigger save.all_records()[q]]
            0 <= q < save.all_records().len() ==> (save.all_records()[q] is Injected
                ==> values[q] is Some),
    ensures
        all_restored(paired(save.all_records(), values)),
{
    let written = save.all_records();
    let pairs = paired(written, values);
    assert forall|q: int| #![trigger pairs[q]] 0 <= q < pairs.len() implies restored(
        pairs[q].0,
        pairs[q].1,
    ) is Some by {
        assert(pairs[q] == (written[q], values[q]));
        assert(written.contains(written[q]));
        lemma_written(save, save.nodes.len() as int, written[q]);
        let i = choose|i: int|
            0 <= i < save.nodes.len() && !(save.kind(i) is Dropped) && written[q] == #[trigger]
                save.record(i);
        if let PersistNodeExtract::Occupied { verified_ranges, dirtied_history, .. } = save.nodes[i] {
            law_version_ranges_round_trip(verified_ranges@);
            law_force_dirty_round_trip(dirtied_history@);
        }
    }
}

} // verus!
