//! The versioned graph: what is computed for each key, at which versions it holds,
//! and who read whom.
use std::collections::BTreeMap;
use vstd::prelude::*;

use crate::force_dirty::{ForceDirtyHistory, InvalidationSourcePriority};
use crate::graph_types::{
    changes, computed_node, computed_versions, deps_hold_alike, history_of, injected_values,
    invalidated_node, is_latest_until, known_at, lookup, may_keep, InvalidateKind, StorageType,
    ValueReusable, VersionedGraphKey, VersionedGraphResult,
};
use crate::nodes::{
    injected_at, injected_from, lemma_last_injected, InjectedGraphNode, NodeView,
    OccupiedGraphNode, Presence, VacantGraphNode, VersionedGraphNode,
};
use crate::store::{keys_with, lists, sorted_keys, NodeStore, PagableNodeCounts};
use crate::value::{
    DiceComputedValue, DiceKey, DiceValidValue, PagableNodeValue, TrackedInvalidationPaths,
};
use crate::versions::{VersionNumber, VersionRange, VersionRanges};

verus! {

broadcast use vstd::std_specs::btree::group_btree_axioms;

/// Whether the computation of node `p` read key `d`.
pub open spec fn reads(nodes: Map<u32, NodeView>, p: u32, d: u32) -> bool {
    nodes.contains_key(p) && nodes[p].deps().contains(DiceKey { index: d })
}

/// Whether each node of the path read the one before it.
pub open spec fn chain(nodes: Map<u32, NodeView>, path: Seq<u32>) -> bool {
    &&& path.len() >= 2
    &&& forall|i: int| #![trigger path[i]] 1 <= i < path.len() ==> reads(nodes, path[i], path[i - 1])
}

/// Whether node `x` read key `k`, or read a node that did, or so on.
pub open spec fn depends_on(nodes: Map<u32, NodeView>, x: u32, k: u32) -> bool {
    exists|path: Seq<u32>| #[trigger] chain(nodes, path) && path[0] == k && path.last() == x
}

/// Who read each key.
type ReadersIndex = BTreeMap<u32, BTreeMap<u32, ()>>;

/// The nodes that the index names as readers of key `d`.
spec fn readers(index: Map<u32, BTreeMap<u32, ()>>, d: u32) -> Set<u32> {
    if index.contains_key(d) {
        index[d]@.dom()
    } else {
        Set::empty()
    }
}

/// Enters node `p` as a reader of each of the keys.
fn link(index: &mut ReadersIndex, deps: &Vec<DiceKey>, p: u32)
    ensures
        forall|d: u32, q: u32| #[trigger]
            readers(final(index)@, d).contains(q) <==> readers(old(index)@, d).contains(q) || (q == p
                && deps@.contains(DiceKey { index: d })),
{
    let mut i: usize = 0;
    while i < deps.len()
        invariant
            i <= deps@.len(),
            forall|d: u32, q: u32| #[trigger]
                readers(index@, d).contains(q) <==> readers(old(index)@, d).contains(q) || (q == p
                    && deps@.take(i as int).contains(DiceKey { index: d })),
        decreases deps@.len() - i,
    {
        let key: DiceKey = deps[i];
        let ghost before = index@;
        let mut row: BTreeMap<u32, ()> = match index.remove(&key.index) {
            Some(row) => row,
            None => BTreeMap::new(),
        };
        let ghost was = row@;
        let _ = row.insert(p, ());
        let _ = index.insert(key.index, row);
        proof {
            assert(was.dom() =~= readers(before, key.index));
            assert(readers(index@, key.index) =~= was.dom().insert(p));
            let front = deps@.take(i as int);
            let longer = deps@.take(i + 1);
            assert(longer =~= front.push(key));
            assert forall|d: u32, q: u32| #[trigger]
                readers(index@, d).contains(q) <==> readers(old(index)@, d).contains(q) || (q == p
                    && longer.contains(DiceKey { index: d })) by {
                assert(readers(before, d).contains(q) <==> readers(old(index)@, d).contains(q) || (q
                    == p && front.contains(DiceKey { index: d })));
                lemma_contains_push(front, key, DiceKey { index: d });
                if d != key.index {
                    assert(readers(index@, d) =~= readers(before, d));
                }
            }
        }
        i += 1;
    }
    assert(deps@.take(deps@.len() as int) =~= deps@);
}

/// Takes node `p` out as a reader of each of the keys.
fn unlink(index: &mut ReadersIndex, deps: &Vec<DiceKey>, p: u32)
    ensures
        forall|d: u32, q: u32| #[trigger]
            readers(final(index)@, d).contains(q) <==> readers(old(index)@, d).contains(q) && !(q
                == p && deps@.contains(DiceKey { index: d })),
{
    let mut i: usize = 0;
    while i < deps.len()
        invariant
            i <= deps@.len(),
            forall|d: u32, q: u32| #[trigger]
                readers(index@, d).contains(q) <==> readers(old(index)@, d).contains(q) && !(q == p
                    && deps@.take(i as int).contains(DiceKey { index: d })),
        decreases deps@.len() - i,
    {
        let key: DiceKey = deps[i];
        let ghost before = index@;
        match index.remove(&key.index) {
            Some(found) => {
                let mut row: BTreeMap<u32, ()> = found;
                let _ = row.remove(&p);
                let _ = index.insert(key.index, row);
            },
            None => {},
        }
        proof {
            assert(readers(index@, key.index) =~= readers(before, key.index).remove(p));
            let front = deps@.take(i as int);
            let longer = deps@.take(i + 1);
            assert(longer =~= front.push(key));
            assert forall|d: u32, q: u32| #[trigger]
                readers(index@, d).contains(q) <==> readers(old(index)@, d).contains(q) && !(q == p
                    && longer.contains(DiceKey { index: d })) by {
                assert(readers(before, d).contains(q) <==> readers(old(index)@, d).contains(q) && !(q
                    == p && front.contains(DiceKey { index: d })));
                lemma_contains_push(front, key, DiceKey { index: d });
                if d != key.index {
                    assert(readers(index@, d) =~= readers(before, d));
                }
            }
        }
        i += 1;
    }
    assert(deps@.take(deps@.len() as int) =~= deps@);
}

/// What one more element adds to a list.
proof fn lemma_contains_push<A>(s: Seq<A>, a: A, x: A)
    ensures
        s.push(a).contains(x) <==> s.contains(x) || x == a,
{
    if s.contains(x) {
        let i = choose|i: int| 0 <= i < s.len() && s[i] == x;
        assert(s.push(a)[i] == x);
    }
    assert(s.push(a)[s.len() as int] == a);
    if s.push(a).contains(x) {
        let i = choose|i: int| 0 <= i < s.push(a).len() && s.push(a)[i] == x;
        if i < s.len() {
            assert(s[i] == x);
        }
    }
}

/// The versioned graph.
pub struct VersionedGraph {
    store: NodeStore,
    rdeps: ReadersIndex,
}

impl View for VersionedGraph {
    type V = Map<u32, NodeView>;

    closed spec fn view(&self) -> Map<u32, NodeView> {
        self.store@
    }
}

impl VersionedGraph {
    /// Whether the nodes are in order and the index of readers says who read whom.
    pub closed spec fn wf(self) -> bool {
        &&& self.store.wf()
        &&& forall|d: u32, p: u32| #[trigger]
            readers(self.rdeps@, d).contains(p) <==> reads(self@, p, d)
    }

    /// A graph without nodes.
    pub fn new() -> (r: VersionedGraph)
        ensures
            r.wf(),
            r@ == Map::<u32, NodeView>::empty(),
    {
        VersionedGraph { store: NodeStore::new(), rdeps: BTreeMap::new() }
    }

    /// Stores a node under a key. Who read whom follows from what the nodes hold.
    fn put(&mut self, k: u32, node: VersionedGraphNode)
        requires
            old(self).wf(),
            node.wf(),
        ensures
            final(self).wf(),
            final(self)@ == old(self)@.insert(k, node@),
    {
        let ghost stored = node@;
        let ghost before = self@;
        let taken: Option<VersionedGraphNode> = self.store.insert(k, node);
        if let Some(was) = &taken {
            if let Some(deps) = was.deps() {
                unlink(&mut self.rdeps, deps, k);
            }
        }
        let ghost unlinked = self.rdeps@;
        assert forall|d: u32, p: u32| #[trigger] readers(unlinked, d).contains(p) <==> p != k
            && reads(before, p, d) by {
            assert(readers(old(self).rdeps@, d).contains(p) <==> reads(before, p, d));
        }
        if let Some(now) = self.store.get(k) {
            if let Some(deps) = now.deps() {
                link(&mut self.rdeps, deps, k);
            }
        }
        assert forall|d: u32, p: u32| #[trigger] readers(self.rdeps@, d).contains(p) <==> reads(
            self@,
            p,
            d,
        ) by {
            assert(readers(unlinked, d).contains(p) <==> p != k && reads(before, p, d));
        }
    }

    /// The nodes that read a key.
    pub fn rdeps(&self, k: DiceKey) -> (r: Vec<u32>)
        requires
            self.wf(),
        ensures
            forall|p: u32| #[trigger] r@.contains(p) <==> reads(self@, p, k.index),
    {
        let ghost d = k.index;
        let r: Vec<u32> = match self.rdeps.get(&k.index) {
            Some(row) => sorted_keys(row),
            None => Vec::new(),
        };
        assert forall|p: u32| #[trigger] r@.contains(p) <==> reads(self@, p, d) by {
            assert(readers(self.rdeps@, d).contains(p) <==> reads(self@, p, d));
            assert(r@.contains(p) <==> readers(self.rdeps@, d).contains(p));
        }
        r
    }

    /// Adds the nodes that read a key to a list, unless they are in it already.
    fn add_readers(&self, d: u32, out: &mut Vec<u32>, seen: &mut BTreeMap<u32, ()>)
        requires
            self.wf(),
            old(out)@.no_duplicates(),
            forall|x: u32| #[trigger] old(out)@.contains(x) <==> old(seen)@.contains_key(x),
        ensures
            final(out)@.no_duplicates(),
            forall|x: u32| #[trigger] final(out)@.contains(x) <==> final(seen)@.contains_key(x),
            forall|x: u32| #[trigger]
                final(out)@.contains(x) <==> old(out)@.contains(x) || reads(self@, x, d),
            final(out)@.len() >= old(out)@.len(),
            forall|j: int|
                0 <= j < old(out)@.len() ==> #[trigger] final(out)@[j] == old(out)@[j],
    {
        let new: Vec<u32> = self.rdeps(DiceKey { index: d });
        let mut i: usize = 0;
        while i < new.len()
            invariant
                i <= new@.len(),
                out@.no_duplicates(),
                forall|x: u32| #[trigger] out@.contains(x) <==> seen@.contains_key(x),
                forall|x: u32| #[trigger]
                    out@.contains(x) <==> old(out)@.contains(x) || new@.take(i as int).contains(x),
                out@.len() >= old(out)@.len(),
                forall|j: int| 0 <= j < old(out)@.len() ==> #[trigger] out@[j] == old(out)@[j],
            decreases new@.len() - i,
        {
            let x: u32 = new[i];
            let ghost before = out@;
            let ghost before_seen = seen@;
            if !seen.contains_key(&x) {
                out.push(x);
                let _ = seen.insert(x, ());
            }
            proof {
                assert(new@.take(i + 1) =~= new@.take(i as int).push(x));
                assert forall|y: u32| #[trigger] out@.contains(y) <==> old(out)@.contains(y)
                    || new@.take(i + 1).contains(y) by {
                    assert(before.contains(y) <==> old(out)@.contains(y) || new@.take(
                        i as int,
                    ).contains(y));
                    lemma_contains_push(new@.take(i as int), x, y);
                    lemma_contains_push(before, x, y);
                    assert(before.contains(x) <==> before_seen.contains_key(x));
                }
                assert forall|y: u32| #[trigger] out@.contains(y) <==> seen@.contains_key(y) by {
                    lemma_contains_push(before, x, y);
                    assert(before.contains(y) <==> before_seen.contains_key(y));
                }
                if !before_seen.contains_key(x) {
                    assert(!before.contains(x));
                    assert(out@.no_duplicates());
                }
            }
            i += 1;
        }
        assert(new@.take(new@.len() as int) =~= new@);
    }

    /// All nodes that depend on a key, each once.
    fn dependents(&self, k: u32) -> (r: Vec<u32>)
        requires
            self.wf(),
        ensures
            r@.no_duplicates(),
            forall|x: u32| #[trigger] r@.contains(x) <==> depends_on(self@, x, k),
    {
        let mut out: Vec<u32> = Vec::new();
        let mut seen: BTreeMap<u32, ()> = BTreeMap::new();
        self.add_readers(k, &mut out, &mut seen);
        let mut i: usize = 0;
        let ghost nodes = self@;
        let n: usize = self.store.len();
        proof {
            assert forall|x: u32| #[trigger] out@.contains(x) implies depends_on(nodes, x, k) by {
                assert(chain(nodes, seq![k, x]));
            }
            lemma_at_most(out@, nodes);
        }
        while i < out.len()
            invariant
                self.wf(),
                nodes == self@,
                nodes.dom().finite(),
                i <= out@.len() <= nodes.dom().len(),
                out@.no_duplicates(),
                forall|x: u32| #[trigger] out@.contains(x) <==> seen@.contains_key(x),
                forall|x: u32| #[trigger] out@.contains(x) ==> depends_on(nodes, x, k),
                forall|x: u32| #[trigger] reads(nodes, x, k) ==> out@.contains(x),
                forall|j: int, x: u32|
                    #![trigger reads(nodes, x, out@[j])]
                    0 <= j < i && reads(nodes, x, out@[j]) ==> out@.contains(x),
            decreases nodes.dom().len() - i,
        {
            let d: u32 = out[i];
            let ghost before = out@;
            self.add_readers(d, &mut out, &mut seen);
            proof {
                assert(before.contains(d));
                assert forall|x: u32| #[trigger] out@.contains(x) implies depends_on(
                    nodes,
                    x,
                    k,
                ) by {
                    if !before.contains(x) {
                        let path = choose|path: Seq<u32>| #[trigger]
                            chain(nodes, path) && path[0] == k && path.last() == d;
                        assert(chain(nodes, path.push(x)));
                        assert(path.push(x).last() == x);
                    }
                }
                assert forall|j: int, x: u32|
                    #![trigger reads(nodes, x, out@[j])]
                    0 <= j < i + 1 && reads(nodes, x, out@[j]) implies out@.contains(x) by {
                    assert(out@[j] == before[j]);
                    if j < i {
                        assert(reads(nodes, x, before[j]));
                        assert(before.contains(x));
                    }
                }
                assert forall|x: u32| #[trigger] reads(nodes, x, k) implies out@.contains(x) by {
                    assert(before.contains(x));
                }
                lemma_at_most(out@, nodes);
            }
            i += 1;
        }
        proof {
            assert forall|x: u32| depends_on(nodes, x, k) implies #[trigger] out@.contains(x) by {
                let path = choose|path: Seq<u32>| #[trigger]
                    chain(nodes, path) && path[0] == k && path.last() == x;
                lemma_closed(nodes, k, out@, path);
            }
        }
        out
    }

    /// What is known of a key at a version.
    pub fn get(&self, key: VersionedGraphKey) -> (r: VersionedGraphResult)
        requires
            self.wf(),
        ensures
            r@ == lookup(self@, key.k, key.v.number as int),
    {
        match self.store.get(key.k.index) {
            Some(node) => node.at_version(key.v),
            None => VersionedGraphResult::Compute,
        }
    }

    /// The versions at which the node under a key was forced dirty.
    fn history(&self, k: DiceKey) -> (r: ForceDirtyHistory)
        requires
            self.wf(),
        ensures
            r@ == history_of(self@, k),
    {
        match self.store.get(k.index) {
            Some(node) => node.history(),
            None => ForceDirtyHistory::new(),
        }
    }

    /// The versions at which a value holds that was computed from the given deps.
    fn computed_versions(
        &self,
        key: VersionedGraphKey,
        dirtied: &ForceDirtyHistory,
        deps: &Vec<DiceKey>,
    ) -> (r: VersionRanges)
        requires
            self.wf(),
            key.v.number < u64::MAX,
            dirtied@ == history_of(self@, key.k),
        ensures
            r.wf(),
            r.versions() == computed_versions(self@, key, deps@),
    {
        let v: VersionNumber = key.v;
        let range: VersionRange = dirtied.restricted_range(v);
        let mut r: VersionRanges = VersionRanges::new();
        r.insert(range);
        let ghost nodes = self@;
        let ghost at = v.number as int;
        let mut i: usize = 0;
        while i < deps.len()
            invariant
                self.wf(),
                nodes == self@,
                v == key.v,
                at == v.number,
                i <= deps@.len(),
                r.wf(),
                forall|w: int| #[trigger]
                    r.has(w) <==> range.has(w) && deps_hold_alike(
                        nodes,
                        deps@.take(i as int),
                        at,
                        w,
                    ),
            decreases deps@.len() - i,
        {
            let ghost before = r;
            let dep: VersionRanges = match self.store.get(deps[i].index) {
                Some(node) => node.alike(v),
                None => VersionRanges::new(),
            };
            r = r.intersect(&dep);
            proof {
                let front = deps@.take(i as int);
                let longer = deps@.take(i + 1);
                let d = deps@[i as int];
                assert(longer =~= front.push(d));
                assert forall|w: int| #[trigger] r.has(w) <==> range.has(w) && deps_hold_alike(
                    nodes,
                    longer,
                    at,
                    w,
                ) by {
                    assert(before.has(w) <==> range.has(w) && deps_hold_alike(nodes, front, at, w));
                    assert(dep.has(w) <==> nodes.contains_key(d.index)
                        && nodes[d.index].holds_alike(at, w));
                    if deps_hold_alike(nodes, longer, at, w) {
                        assert(longer[i as int] == d);
                        assert forall|j: int| #![trigger front[j]] 0 <= j < front.len() implies
                            nodes.contains_key(front[j].index) && nodes[front[j].index].holds_alike(
                            at,
                            w,
                        ) by {
                            assert(longer[j] == front[j]);
                        }
                    }
                    if deps_hold_alike(nodes, front, at, w) && dep.has(w) {
                        assert forall|j: int| #![trigger longer[j]] 0 <= j < longer.len() implies
                            nodes.contains_key(longer[j].index)
                            && nodes[longer[j].index].holds_alike(at, w) by {
                            if j < i {
                                assert(front[j] == longer[j]);
                            }
                        }
                    }
                }
            }
            i += 1;
        }
        let ghost before = r;
        let here: VersionRange = VersionRange::bounded(v, VersionNumber { number: v.number + 1 });
        r.insert(here);
        proof {
            assert(deps@.take(deps@.len() as int) =~= deps@);
            assert(range.has(at));
            assert forall|w: int|
                r.versions().contains(w) <==> computed_versions(nodes, key, deps@).contains(w) by {
                assert(r.has(w) <==> before.has(w) || here.has(w));
                assert(before.has(w) <==> range.has(w) && deps_hold_alike(nodes, deps@, at, w));
                if 0 <= w {
                    assert(range.has(w) <==> !dirtied@.separates(at, w));
                }
            }
            assert(r.versions() =~= computed_versions(nodes, key, deps@));
        }
        r
    }

    /// Records a value that was computed from the given deps, or that came from outside.
    /// Gives back the value that the key has now, with the versions that it holds at.
    pub fn update(
        &mut self,
        key: VersionedGraphKey,
        value: DiceValidValue,
        reusability: ValueReusable,
        deps: Vec<DiceKey>,
        storage: StorageType,
        paths: TrackedInvalidationPaths,
    ) -> (r: DiceComputedValue)
        requires
            old(self).wf(),
            key.v.number < u64::MAX,
        ensures
            final(self).wf(),
            r.valid.wf(),
            r.paths == paths,
            match storage {
                StorageType::Normal => {
                    let node = computed_node(old(self)@, key, value, reusability, deps@, paths);
                    &&& final(self)@ == old(self)@.insert(key.k.index, node)
                    &&& r.valid.versions() == node->verified
                    &&& r.value == (match node->value.hydrated() {
                        Some(resident) => resident,
                        None => value,
                    })
                },
                StorageType::Injected => {
                    let values = injected_from(injected_values(old(self)@, key.k), key.v, value);
                    &&& final(self)@ == old(self)@.insert(
                        key.k.index,
                        NodeView::Injected { values },
                    )
                    &&& r.valid.versions() == Set::new(|w: int| key.v.number <= w)
                    &&& r.value == value
                },
            },
    {
        match storage {
            StorageType::Normal => self.update_computed(key, value, reusability, deps, paths),
            StorageType::Injected => {
                self.inject(key, value);
                let mut valid: VersionRanges = VersionRanges::new();
                let range: VersionRange = VersionRange::begins_with(key.v);
                valid.insert(range);
                proof {
                    let after = Set::new(|w: int| key.v.number <= w);
                    assert forall|w: int| valid.versions().contains(w) <==> after.contains(w) by {
                        assert(valid.has(w) <==> range.has(w));
                    }
                    assert(valid.versions() =~= after);
                }
                DiceComputedValue { value, valid, paths }
            },
        }
    }

    /// Gives a key a value from outside, from a version on.
    fn inject(&mut self, key: VersionedGraphKey, value: DiceValidValue)
        requires
            old(self).wf(),
        ensures
            final(self).wf(),
            final(self)@ == old(self)@.insert(
                key.k.index,
                NodeView::Injected {
                    values: injected_from(injected_values(old(self)@, key.k), key.v, value),
                },
            ),
    {
        let mut inj: InjectedGraphNode = InjectedGraphNode { values: Vec::new() };
        if let Some(VersionedGraphNode::Injected(was)) = self.store.get(key.k.index) {
            let mut i: usize = 0;
            while i < was.values.len()
                invariant
                    i <= was.values@.len(),
                    inj.values@ =~= was.values@.take(i as int),
                decreases was.values@.len() - i,
            {
                inj.values.push(was.values[i]);
                i += 1;
            }
            assert(was.values@.take(was.values@.len() as int) =~= was.values@);
        }
        assert(inj.values@ =~= injected_values(self@, key.k));
        inj.on_injected(key.v, value);
        proof {
            lemma_last_injected(injected_values(old(self)@, key.k), key.v, value);
        }
        self.put(key.k.index, VersionedGraphNode::Injected(inj));
    }

    /// Records a value that was computed from the given deps.
    fn update_computed(
        &mut self,
        key: VersionedGraphKey,
        value: DiceValidValue,
        reusability: ValueReusable,
        deps: Vec<DiceKey>,
        paths: TrackedInvalidationPaths,
    ) -> (r: DiceComputedValue)
        requires
            old(self).wf(),
            key.v.number < u64::MAX,
        ensures
            final(self).wf(),
            r.valid.wf(),
            r.paths == paths,
            ({
                let node = computed_node(old(self)@, key, value, reusability, deps@, paths);
                &&& final(self)@ == old(self)@.insert(key.k.index, node)
                &&& r.valid.versions() == node->verified
                &&& r.value == (match node->value.hydrated() {
                    Some(resident) => resident,
                    None => value,
                })
            }),
    {
        let ghost nodes = self@;
        let dirtied: ForceDirtyHistory = self.history(key.k);
        let fresh: VersionRanges = self.computed_versions(key, &dirtied, &deps);
        let mut kept: PagableNodeValue = PagableNodeValue::Fresh(value);
        let mut verified: VersionRanges = fresh.duplicate();
        proof {
            assert(verified.versions() =~= fresh.versions());
        }
        if let Some(VersionedGraphNode::Occupied(occ)) = self.store.get(key.k.index) {
            let keep: bool = match reusability {
                ValueReusable::EqualityBased => match occ.value.as_hydrated() {
                    Some(had) => had.equality(&value),
                    None => false,
                },
                ValueReusable::VersionBased(p) => occ.verified.contains(p),
            };
            assert(keep == may_keep(nodes[key.k.index], value, reusability)) by {
                if let ValueReusable::VersionBased(p) = reusability {
                    assert(occ.verified.versions().contains(p.number as int)
                        <==> occ.verified.has(p.number as int));
                }
            }
            if keep {
                kept = occ.value;
                verified = occ.verified.duplicate();
                verified.union(&fresh);
                proof {
                    let both = occ.verified.versions() + fresh.versions();
                    assert forall|w: int| verified.versions().contains(w) <==> both.contains(
                        w,
                    ) by {
                        assert(verified.has(w) <==> occ.verified.has(w) || fresh.has(w));
                    }
                    assert(verified.versions() =~= both);
                }
            } else {
                kept = occ.value.after_recompute(value);
            }
        }
        let current: DiceValidValue = match kept.as_hydrated() {
            Some(resident) => resident,
            None => value,
        };
        let valid: VersionRanges = verified.duplicate();
        let node: VersionedGraphNode = VersionedGraphNode::Occupied(
            OccupiedGraphNode { value: kept, deps, verified, dirtied, paths },
        );
        proof {
            assert(valid.versions() =~= verified.versions());
            assert(node@ =~= computed_node(nodes, key, value, reusability, deps@, paths));
        }
        self.put(key.k.index, node);
        DiceComputedValue { value: current, valid, paths }
    }

    /// Whether an invalidation changes anything.
    fn changes(&self, key: VersionedGraphKey, kind: &InvalidateKind) -> (r: bool)
        requires
            self.wf(),
        ensures
            r == changes(self@, key, *kind),
    {
        match self.store.get(key.k.index) {
            None => true,
            Some(node) => match kind {
                InvalidateKind::ForceDirty => match node {
                    VersionedGraphNode::Injected(_) => false,
                    VersionedGraphNode::Occupied(occ) => !occ.dirtied.is_recorded(key.v),
                    VersionedGraphNode::Vacant(vac) => !vac.dirtied.is_recorded(key.v),
                },
                InvalidateKind::Update(value, storage) => match (node, storage) {
                    (VersionedGraphNode::Injected(inj), StorageType::Injected) =>
                        !inj.latest_for_persist().1.equality(value),
                    (VersionedGraphNode::Occupied(occ), StorageType::Normal) =>
                        match occ.value.as_hydrated() {
                        Some(had) => {
                            assert(occ.verified.versions().contains(key.v.number as int)
                                <==> occ.verified.has(key.v.number as int));
                            !(had.equality(value) && occ.verified.contains(key.v))
                        },
                        None => true,
                    },
                    _ => true,
                },
            },
        }
    }

    /// Forces a key dirty from a version on. The key is not an injected one.
    fn force_dirty(&mut self, key: VersionedGraphKey, priority: InvalidationSourcePriority)
        requires
            old(self).wf(),
            !(old(self)@.contains_key(key.k.index) && old(self)@[key.k.index] is Injected),
        ensures
            final(self).wf(),
            final(self)@ == old(self)@.insert(
                key.k.index,
                invalidated_node(old(self)@, key, InvalidateKind::ForceDirty, priority),
            ),
    {
        let ghost nodes = self@;
        let mut dirtied: ForceDirtyHistory = self.history(key.k);
        let _ = dirtied.force_dirty(key.v, priority);
        let known: Vec<DiceKey> = match self.store.get(key.k.index) {
            Some(node) => match node.deps() {
                Some(deps) => copy_keys(deps),
                None => Vec::new(),
            },
            None => Vec::new(),
        };
        let mut node: VersionedGraphNode = VersionedGraphNode::Vacant(
            VacantGraphNode { dirtied: dirtied.duplicate(), deps: known },
        );
        if let Some(VersionedGraphNode::Occupied(occ)) = self.store.get(key.k.index) {
            let range: VersionRange = VersionRange::bounded(VersionNumber { number: 0 }, key.v);
            let verified: VersionRanges = occ.verified.intersect_range(&range);
            proof {
                let cut = Set::new(
                    |w: int| occ.verified.versions().contains(w) && w < key.v.number,
                );
                assert forall|w: int| verified.versions().contains(w) <==> cut.contains(w) by {
                    assert(verified.has(w) <==> occ.verified.has(w) && range.has(w));
                    if occ.verified.has(w) {
                        let i = choose|i: int|
                            0 <= i < occ.verified@.len() && #[trigger] occ.verified@[i].has(w);
                        assert(0 <= occ.verified@[i].begin.number <= w);
                    }
                }
                assert(verified.versions() =~= cut);
            }
            node = VersionedGraphNode::Occupied(
                OccupiedGraphNode {
                    value: occ.value,
                    deps: copy_keys(&occ.deps),
                    verified,
                    dirtied,
                    paths: occ.paths,
                },
            );
        }
        assert(node@ =~= invalidated_node(nodes, key, InvalidateKind::ForceDirty, priority));
        self.put(key.k.index, node);
    }

    /// Gives a computed key a value from a version on, whatever its deps were.
    fn set_value(
        &mut self,
        key: VersionedGraphKey,
        value: DiceValidValue,
        priority: InvalidationSourcePriority,
    )
        requires
            old(self).wf(),
        ensures
            final(self).wf(),
            final(self)@ == old(self)@.insert(
                key.k.index,
                invalidated_node(
                    old(self)@,
                    key,
                    InvalidateKind::Update(value, StorageType::Normal),
                    priority,
                ),
            ),
    {
        let ghost nodes = self@;
        let dirtied: ForceDirtyHistory = self.history(key.k);
        let kept: PagableNodeValue = match self.store.get(key.k.index) {
            Some(VersionedGraphNode::Occupied(occ)) => occ.value.after_recompute(value),
            _ => PagableNodeValue::Fresh(value),
        };
        let range: VersionRange = dirtied.restricted_range(key.v);
        let from: VersionRange = VersionRange::begins_with(key.v);
        let mut all: VersionRanges = VersionRanges::new();
        all.insert(from);
        let verified: VersionRanges = all.intersect_range(&range);
        proof {
            let wanted = Set::new(
                |w: int| key.v.number <= w && !dirtied@.separates(key.v.number as int, w),
            );
            assert forall|w: int| verified.versions().contains(w) <==> wanted.contains(w) by {
                assert(verified.has(w) <==> all.has(w) && range.has(w));
                assert(all.has(w) <==> from.has(w));
                if 0 <= w {
                    assert(range.has(w) <==> !dirtied@.separates(key.v.number as int, w));
                }
            }
            assert(verified.versions() =~= wanted);
        }
        let node: VersionedGraphNode = VersionedGraphNode::Occupied(
            OccupiedGraphNode {
                value: kept,
                deps: Vec::new(),
                verified,
                dirtied,
                paths: TrackedInvalidationPaths::clean(),
            },
        );
        assert(node@ =~= invalidated_node(
            nodes,
            key,
            InvalidateKind::Update(value, StorageType::Normal),
            priority,
        ));
        self.put(key.k.index, node);
    }

    /// Makes a key dirty, or gives it a value, from a version on, and dirties all that
    /// depends on it from there on. Returns whether anything changed.
    pub fn invalidate(
        &mut self,
        key: VersionedGraphKey,
        kind: InvalidateKind,
        priority: InvalidationSourcePriority,
    ) -> (r: bool)
        requires
            old(self).wf(),
        ensures
            final(self).wf(),
            r == changes(old(self)@, key, kind),
            final(self)@ == invalidated(old(self)@, key, kind, priority),
    {
        if !self.changes(key, &kind) {
            return false;
        }
        match kind {
            InvalidateKind::ForceDirty => {
                self.force_dirty(key, priority);
            },
            InvalidateKind::Update(value, StorageType::Injected) => {
                self.inject(key, value);
            },
            InvalidateKind::Update(value, StorageType::Normal) => {
                self.set_value(key, value, priority);
            },
        }
        let dependents: Vec<u32> = self.dependents(key.k.index);
        proof {
            assert(Set::new(|x: u32| dependents@.contains(x)) =~= all_dependents(
                self@,
                key.k.index,
            ));
        }
        self.dirty_all(&dependents, key.v);
        true
    }

    /// Drops all nodes.
    pub fn clear(&mut self)
        ensures
            final(self).wf(),
            final(self)@ == Map::<u32, NodeView>::empty(),
    {
        self.store = NodeStore::new();
        self.rdeps = BTreeMap::new();
    }

    /// Puts nodes in that were read back. Who read whom is derived from their deps.
    pub fn install_persisted_nodes(&mut self, nodes: Vec<(DiceKey, VersionedGraphNode)>)
        requires
            old(self).wf(),
            forall|i: int| #![trigger nodes@[i]] 0 <= i < nodes@.len() ==> nodes@[i].1.wf(),
        ensures
            final(self).wf(),
            final(self)@ == installed(old(self)@, node_views(nodes@)),
    {
        let ghost all = nodes@;
        let mut rest: Vec<(DiceKey, VersionedGraphNode)> = Vec::new();
        let mut from: Vec<(DiceKey, VersionedGraphNode)> = nodes;
        while from.len() > 0
            invariant
                from@.len() + rest@.len() == all.len(),
                from@ =~= all.take(from@.len() as int),
                rest@ =~= all.skip(from@.len() as int).reverse(),
            decreases from@.len(),
        {
            let ghost n = from@.len() - 1;
            if let Some(entry) = from.pop() {
                rest.push(entry);
                proof {
                    assert(all.skip(n) =~= seq![all[n]] + all.skip(n + 1));
                }
            }
        }
        assert(all.skip(0) =~= all);
        assert(all.take(0) =~= Seq::<(DiceKey, VersionedGraphNode)>::empty());
        while rest.len() > 0
            invariant
                forall|i: int| #![trigger all[i]] 0 <= i < all.len() ==> all[i].1.wf(),
                rest@.len() <= all.len(),
                rest@ =~= all.skip(all.len() - rest@.len()).reverse(),
                self.wf(),
                self@ == installed(old(self)@, node_views(all.take(all.len() - rest@.len()))),
            decreases rest@.len(),
        {
            let ghost i = all.len() - rest@.len();
            if let Some((key, node)) = rest.pop() {
                assert(all[i] == (key, node));
                assert(node_views(all.take(i + 1)).drop_last() =~= node_views(all.take(i)));
                self.put(key.index, node);
            }
        }
        assert(all.take(all.len() as int) =~= all);
    }

    /// Changes what the node under a key keeps of its value.
    pub fn keep(&mut self, k: DiceKey, kept: PagableNodeValue)
        requires
            old(self).wf(),
            old(self)@.contains_key(k.index),
        ensures
            final(self).wf(),
            final(self)@ == old(self)@.insert(k.index, old(self)@[k.index].keeping(kept)),
    {
        let ghost before = *self;
        if let Some(node) = self.store.remove(k.index) {
            let node: VersionedGraphNode = node.with_kept(kept);
            let _ = self.store.insert(k.index, node);
            proof {
                assert(self@ =~= before@.insert(k.index, before@[k.index].keeping(kept)));
                assert forall|d: u32, p: u32| #[trigger]
                    readers(self.rdeps@, d).contains(p) <==> reads(self@, p, d) by {
                    assert(readers(before.rdeps@, d).contains(p) <==> reads(before@, p, d));
                }
            }
        }
    }

    /// The node under a key.
    pub fn node(&self, k: DiceKey) -> (r: Option<&VersionedGraphNode>)
        requires
            self.wf(),
        ensures
            match r {
                Some(node) => node.wf() && self@.contains_key(k.index) && self@[k.index] == node@,
                None => !self@.contains_key(k.index),
            },
    {
        self.store.get(k.index)
    }

    /// How many nodes there are.
    pub fn len(&self) -> (r: usize)
        requires
            self.wf(),
        ensures
            self@.dom().finite(),
            r == self@.dom().len(),
    {
        self.store.len()
    }

    /// The keys of all nodes, in ascending order.
    pub fn keys(&self) -> (r: Vec<u32>)
        requires
            self.wf(),
        ensures
            lists(r@, self@.dom()),
    {
        self.store.keys()
    }

    /// The keys of the nodes that may be paged out, in ascending order.
    pub fn page_out_candidates(&self) -> (r: Vec<u32>)
        requires
            self.wf(),
        ensures
            lists(r@, keys_with(self@, Presence::Candidate)),
    {
        self.store.page_out_candidates()
    }

    /// How many nodes take part in paging in each way.
    pub fn pagable_node_counts(&self) -> (r: PagableNodeCounts)
        requires
            self.wf(),
        ensures
            r.resident == keys_with(self@, Presence::Resident).len(),
            r.paged_out == keys_with(self@, Presence::PagedOut).len(),
            r.candidates == keys_with(self@, Presence::Candidate).len(),
    {
        self.store.pagable_node_counts()
    }

    /// Dirties the given nodes from version `v` on.
    fn dirty_all(&mut self, keys: &Vec<u32>, v: VersionNumber)
        requires
            old(self).wf(),
            keys@.no_duplicates(),
        ensures
            final(self).wf(),
            final(self)@ == dirtied_where(
                old(self)@,
                Set::new(|x: u32| keys@.contains(x)),
                v.number as int,
            ),
    {
        let mut i: usize = 0;
        proof {
            assert(self@ =~= dirtied_where(
                old(self)@,
                Set::new(|x: u32| keys@.take(0).contains(x)),
                v.number as int,
            ));
        }
        while i < keys.len()
            invariant
                i <= keys@.len(),
                keys@.no_duplicates(),
                self.wf(),
                self@ == dirtied_where(
                    old(self)@,
                    Set::new(|x: u32| keys@.take(i as int).contains(x)),
                    v.number as int,
                ),
            decreases keys@.len() - i,
        {
            let k: u32 = keys[i];
            let ghost before = *self;
            proof {
                assert(keys@.take(i + 1) =~= keys@.take(i as int).push(k));
                assert forall|x: u32| #[trigger]
                    keys@.take(i + 1).contains(x) <==> keys@.take(i as int).contains(x) || x == k by {
                    lemma_contains_push(keys@.take(i as int), k, x);
                }
                assert(!keys@.take(i as int).contains(k)) by {
                    if keys@.take(i as int).contains(k) {
                        let j = choose|j: int| 0 <= j < i && keys@.take(i as int)[j] == k;
                        assert(keys@[j] == keys@[i as int]);
                    }
                }
            }
            match self.store.remove(k) {
                Some(node) => {
                    let node: VersionedGraphNode = node.dirtied_from(v);
                    let _ = self.store.insert(k, node);
                    proof {
                        assert(self@ =~= before@.insert(k, before@[k].dirty_from(v.number as int)));
                        assert forall|d: u32, p: u32| #[trigger]
                            readers(self.rdeps@, d).contains(p) <==> reads(self@, p, d) by {
                            assert(readers(before.rdeps@, d).contains(p) <==> reads(before@, p, d));
                        }
                    }
                },
                None => {
                    assert(self@ =~= before@);
                },
            }
            proof {
                assert(self@ =~= dirtied_where(
                    old(self)@,
                    Set::new(|x: u32| keys@.take(i + 1).contains(x)),
                    v.number as int,
                ));
            }
            i += 1;
        }
        proof {
            assert(keys@.take(keys@.len() as int) =~= keys@);
        }
    }
}

/// A copy of a list of keys.
pub fn copy_keys(keys: &Vec<DiceKey>) -> (r: Vec<DiceKey>)
    ensures
        r@ == keys@,
{
    let mut out: Vec<DiceKey> = Vec::new();
    let mut i: usize = 0;
    while i < keys.len()
        invariant
            i <= keys@.len(),
            out@ =~= keys@.take(i as int),
        decreases keys@.len() - i,
    {
        out.push(keys[i]);
        i += 1;
    }
    assert(keys@.take(keys@.len() as int) =~= keys@);
    out
}

impl OccupiedGraphNode {
    /// What is known of the node's value at version `v`.
    fn at_version(&self, v: VersionNumber) -> (r: VersionedGraphResult)
        requires
            self.verified.wf(),
        ensures
            r@ == known_at(VersionedGraphNode::Occupied(*self)@, v.number as int),
    {
        let ghost versions = self.verified.versions();
        if self.verified.contains(v) {
            match self.value {
                PagableNodeValue::PagedOut(data_key) => VersionedGraphResult::Stored {
                    data_key,
                    valid: self.verified.duplicate(),
                    paths: self.paths,
                },
                PagableNodeValue::Fresh(value) | PagableNodeValue::Recomputed(value)
                | PagableNodeValue::NonPageable(value) => VersionedGraphResult::Match(
                    DiceComputedValue {
                        value,
                        valid: self.verified.duplicate(),
                        paths: self.paths,
                    },
                ),
            }
        } else {
            match self.verified.find_value_upper_bound(v) {
                Some(p) => {
                    proof {
                        assert(self.verified.has(p.number as int));
                        assert forall|q: int| q <= v.number && #[trigger] versions.contains(q) implies q
                            <= p.number by {
                            assert(self.verified.has(q));
                        }
                        assert(is_latest_until(versions, v.number as int, p.number as int));
                    }
                    let range: VersionRange = self.dirtied.restricted_range(v);
                    assert(range.has(p.number as int) <==> !self.dirtied@.separates(
                        v.number as int,
                        p.number as int,
                    ));
                    if range.contains(p) {
                        VersionedGraphResult::CheckDeps {
                            kept: self.value,
                            prev_verified_version: p,
                            deps: copy_keys(&self.deps),
                        }
                    } else {
                        proof {
                            assert forall|q: int| #[trigger]
                                is_latest_until(versions, v.number as int, q) implies q
                                == p.number by {
                                assert(versions.contains(q) && versions.contains(p.number as int));
                            }
                        }
                        VersionedGraphResult::Compute
                    }
                },
                None => {
                    proof {
                        assert forall|q: int| !#[trigger]
                            is_latest_until(versions, v.number as int, q) by {
                            if versions.contains(q) {
                                assert(self.verified.has(q));
                            }
                        }
                    }
                    VersionedGraphResult::Compute
                },
            }
        }
    }
}

impl VersionedGraphNode {
    /// What is known of the node's value at version `v`.
    fn at_version(&self, v: VersionNumber) -> (r: VersionedGraphResult)
        requires
            self.wf(),
        ensures
            r@ == known_at(self@, v.number as int),
    {
        match self {
            VersionedGraphNode::Occupied(occ) => occ.at_version(v),
            VersionedGraphNode::Injected(inj) => match inj.at_version(v) {
                Some((value, range)) => {
                    let mut valid: VersionRanges = VersionRanges::new();
                    valid.insert(range);
                    let r: VersionedGraphResult = VersionedGraphResult::Match(
                        DiceComputedValue { value, valid, paths: TrackedInvalidationPaths::clean() },
                    );
                    proof {
                        let values = inj.values@;
                        let entry = injected_at(values, v.number as int)->0;
                        let same = Set::new(|w: int| injected_at(values, w) == Some(entry));
                        assert forall|w: int| valid.versions().contains(w) <==> same.contains(
                            w,
                        ) by {
                            assert(valid.has(w) <==> range.has(w));
                        }
                        assert(valid.versions() =~= same);
                    }
                    r
                },
                None => VersionedGraphResult::Compute,
            },
            VersionedGraphNode::Vacant(_) => VersionedGraphResult::Compute,
        }
    }

    /// The versions at which the node has the value that it has at version `v`.
    fn alike(&self, v: VersionNumber) -> (r: VersionRanges)
        requires
            self.wf(),
        ensures
            r.wf(),
            forall|w: int| #[trigger] r.has(w) <==> self@.holds_alike(v.number as int, w),
    {
        match self {
            VersionedGraphNode::Occupied(occ) => if occ.verified.contains(v) {
                let r: VersionRanges = occ.verified.duplicate();
                assert forall|w: int| #[trigger] r.has(w) <==> self@.holds_alike(
                    v.number as int,
                    w,
                ) by {
                    assert(occ.verified.versions().contains(w) <==> occ.verified.has(w));
                }
                r
            } else {
                VersionRanges::new()
            },
            VersionedGraphNode::Injected(inj) => {
                let mut r: VersionRanges = VersionRanges::new();
                if let Some((_, range)) = inj.at_version(v) {
                    r.insert(range);
                    assert forall|w: int| #[trigger] r.has(w) <==> self@.holds_alike(
                        v.number as int,
                        w,
                    ) by {
                        assert(range.has(w) <==> injected_at(inj.values@, w) == injected_at(
                            inj.values@,
                            v.number as int,
                        ));
                    }
                }
                r
            },
            VersionedGraphNode::Vacant(_) => VersionRanges::new(),
        }
    }

    /// The versions at which the node was forced dirty.
    fn history(&self) -> (r: ForceDirtyHistory)
        ensures
            r@ == self@.history(),
    {
        match self {
            VersionedGraphNode::Occupied(occ) => occ.dirtied.duplicate(),
            VersionedGraphNode::Vacant(vac) => vac.dirtied.duplicate(),
            VersionedGraphNode::Injected(_) => ForceDirtyHistory::new(),
        }
    }
}

/// The nodes once those under the given keys are dirty from version `v` on.
pub open spec fn dirtied_where(nodes: Map<u32, NodeView>, keys: Set<u32>, v: int) -> Map<
    u32,
    NodeView,
> {
    Map::new(
        |x: u32| nodes.contains_key(x),
        |x: u32|
            if keys.contains(x) {
                nodes[x].dirty_from(v)
            } else {
                nodes[x]
            },
    )
}

/// The nodes that depend on a key.
pub open spec fn all_dependents(nodes: Map<u32, NodeView>, k: u32) -> Set<u32> {
    Set::new(|x: u32| depends_on(nodes, x, k))
}

/// The nodes after an invalidation. If it changes nothing they stay as they are; else
/// the key has its new node, and what depends on it is dirty from that version on.
pub open spec fn invalidated(
    nodes: Map<u32, NodeView>,
    key: VersionedGraphKey,
    kind: InvalidateKind,
    priority: InvalidationSourcePriority,
) -> Map<u32, NodeView> {
    if changes(nodes, key, kind) {
        let marked = nodes.insert(key.k.index, invalidated_node(nodes, key, kind, priority));
        dirtied_where(marked, all_dependents(marked, key.k.index), key.v.number as int)
    } else {
        nodes
    }
}

/// The nodes once the given ones were put in, one after the other.
pub open spec fn installed(
    nodes: Map<u32, NodeView>,
    new: Seq<(DiceKey, NodeView)>,
) -> Map<u32, NodeView>
    decreases new.len(),
{
    if new.len() == 0 {
        nodes
    } else {
        installed(nodes, new.drop_last()).insert(new.last().0.index, new.last().1)
    }
}

/// Keys with what their nodes hold.
pub open spec fn node_views(new: Seq<(DiceKey, VersionedGraphNode)>) -> Seq<(DiceKey, NodeView)> {
    new.map_values(|e: (DiceKey, VersionedGraphNode)| (e.0, e.1@))
}

/// Nodes that depend on a key are nodes of the graph, so there are no more of them.
proof fn lemma_at_most(keys: Seq<u32>, nodes: Map<u32, NodeView>)
    requires
        nodes.dom().finite(),
        keys.no_duplicates(),
        forall|x: u32| #[trigger]
            keys.contains(x) ==> exists|k: u32| #[trigger] depends_on(nodes, x, k),
    ensures
        keys.len() <= nodes.dom().len(),
{
    assert forall|x: u32| keys.to_set().contains(x) implies nodes.dom().contains(x) by {
        assert(keys.contains(x));
        let k = choose|k: u32| #[trigger] depends_on(nodes, x, k);
        let path = choose|path: Seq<u32>| #[trigger]
            chain(nodes, path) && path[0] == k && path.last() == x;
        assert(reads(nodes, path[path.len() - 1], path[path.len() - 2]));
    }
    keys.unique_seq_to_set();
    vstd::set_lib::lemma_len_subset(keys.to_set(), nodes.dom());
}

/// A list that holds all readers of a key and all readers of its own members holds the
/// end of every chain that starts at the key.
proof fn lemma_closed(nodes: Map<u32, NodeView>, k: u32, keys: Seq<u32>, path: Seq<u32>)
    requires
        chain(nodes, path),
        path[0] == k,
        forall|x: u32| #[trigger] reads(nodes, x, k) ==> keys.contains(x),
        forall|j: int, x: u32|
            #![trigger reads(nodes, x, keys[j])]
            0 <= j < keys.len() && reads(nodes, x, keys[j]) ==> keys.contains(x),
    ensures
        keys.contains(path.last()),
    decreases path.len(),
{
    let n = path.len() - 1;
    assert(reads(nodes, path[n], path[n - 1]));
    if n >= 2 {
        let front = path.drop_last();
        assert(chain(nodes, front)) by {
            assert forall|i: int| #![trigger front[i]] 1 <= i < front.len() implies reads(
                nodes,
                front[i],
                front[i - 1],
            ) by {
                assert(reads(nodes, path[i], path[i - 1]));
            }
        }
        lemma_closed(nodes, k, keys, front);
        let j = choose|j: int| 0 <= j < keys.len() && keys[j] == front.last();
        assert(reads(nodes, path[n], keys[j]));
    }
}

} // verus!
