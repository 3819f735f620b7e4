//! The nodes of a graph by key, with the counts of what is resident and what is not.
use std::collections::BTreeMap;
use vstd::prelude::*;
use vstd::std_specs::cmp::OrdSpec;
use vstd::std_specs::iter::IteratorSpec;

use crate::nodes::{NodeView, Presence, VersionedGraphNode};
use crate::value::PagableNodeValue;

verus! {

broadcast use vstd::std_specs::btree::group_btree_axioms;

/// How many nodes take part in paging in each way.
#[derive(Debug, Clone, Copy, PartialEq, Eq, Structural)]
pub struct PagableNodeCounts {
    pub resident: usize,
    pub paged_out: usize,
    pub candidates: usize,
}

/// Whether the keys are listed in ascending order, each once.
pub open spec fn ascending(keys: Seq<u32>) -> bool {
    forall|i: int, j: int|
        #![trigger keys[i], keys[j]]
        0 <= i < j < keys.len() ==> keys[i] < keys[j]
}

/// Whether the list holds just the keys of the set, in ascending order.
pub open spec fn lists(keys: Seq<u32>, set: Set<u32>) -> bool {
    &&& ascending(keys)
    &&& forall|k: u32| #[trigger] keys.contains(k) <==> set.contains(k)
}

/// The keys of the nodes that take part in paging in the given way.
pub open spec fn keys_with(nodes: Map<u32, NodeView>, presence: Presence) -> Set<u32> {
    Set::new(|k: u32| nodes.contains_key(k) && nodes[k].is(presence))
}

/// A list of a set's keys is as long as the set is large.
pub proof fn lemma_lists_len(keys: Seq<u32>, set: Set<u32>)
    requires
        lists(keys, set),
    ensures
        set.finite(),
        keys.len() == set.len(),
{
    assert(keys.no_duplicates()) by {
        assert forall|i: int, j: int| 0 <= i < keys.len() && 0 <= j < keys.len() && i != j implies
            keys[i] != keys[j] by {
            if i < j {
                assert(keys[i] < keys[j]);
            } else {
                assert(keys[j] < keys[i]);
            }
        }
    }
    keys.unique_seq_to_set();
    assert(keys.to_set() =~= set);
}

/// There is one list of the keys of a set.
pub proof fn lemma_lists_unique(a: Seq<u32>, b: Seq<u32>, set: Set<u32>)
    requires
        lists(a, set),
        lists(b, set),
    ensures
        a == b,
    decreases a.len(),
{
    lemma_lists_len(a, set);
    lemma_lists_len(b, set);
    if a.len() == 0 {
        assert(a =~= b);
    } else {
        let n = a.len() - 1;
        assert(a[n] == b[n]) by {
            assert(a.contains(a[n]) && b.contains(b[n]));
            assert(a.contains(b[n]) && b.contains(a[n]));
            let i = choose|i: int| 0 <= i < a.len() && a[i] == b[n];
            let j = choose|j: int| 0 <= j < b.len() && b[j] == a[n];
            if i < n {
                assert(a[i] < a[n]);
            }
            if j < n {
                assert(b[j] < b[n]);
            }
        }
        lemma_lists_front(a, set);
        lemma_lists_front(b, set);
        lemma_lists_unique(a.drop_last(), b.drop_last(), set.remove(a[n]));
        assert(a =~= a.drop_last().push(a[n]));
        assert(b =~= b.drop_last().push(b[n]));
    }
}

/// All but the last key of a list are listed by the rest.
proof fn lemma_lists_front(keys: Seq<u32>, set: Set<u32>)
    requires
        lists(keys, set),
        keys.len() > 0,
    ensures
        lists(keys.drop_last(), set.remove(keys.last())),
{
    let front = keys.drop_last();
    let n = keys.len() - 1;
    assert forall|i: int, j: int|
        #![trigger front[i], front[j]]
        0 <= i < j < front.len() implies front[i] < front[j] by {
        assert(keys[i] < keys[j]);
    }
    assert forall|k: u32| #[trigger] front.contains(k) <==> set.remove(keys.last()).contains(k) by {
        if front.contains(k) {
            let i = choose|i: int| 0 <= i < front.len() && front[i] == k;
            assert(keys[i] == k && keys[i] < keys[n]);
            assert(keys.contains(k));
        }
        if set.remove(keys.last()).contains(k) {
            assert(keys.contains(k));
            let i = choose|i: int| 0 <= i < keys.len() && keys[i] == k;
            assert(front[i] == k);
        }
    }
}

/// The keys of a list that are in the set.
pub open spec fn within(keys: Seq<u32>, set: Set<u32>) -> Set<u32> {
    Set::new(|k: u32| keys.contains(k) && set.contains(k))
}

/// Picking the keys of a set from an ascending list, one after the other, lists them.
pub proof fn lemma_pick(keys: Seq<u32>, i: int, set: Set<u32>, picked: Seq<u32>)
    requires
        ascending(keys),
        0 <= i < keys.len(),
        lists(picked, within(keys.take(i), set)),
    ensures
        set.contains(keys[i]) ==> lists(picked.push(keys[i]), within(keys.take(i + 1), set)),
        !set.contains(keys[i]) ==> lists(picked, within(keys.take(i + 1), set)),
{
    let front = keys.take(i);
    let longer = keys.take(i + 1);
    assert forall|k: u32| #[trigger] longer.contains(k) <==> front.contains(k) || k == keys[i] by {
        if front.contains(k) {
            let j = choose|j: int| 0 <= j < front.len() && front[j] == k;
            assert(longer[j] == k);
        }
        assert(longer[i] == keys[i]);
        if longer.contains(k) {
            let j = choose|j: int| 0 <= j < longer.len() && longer[j] == k;
            if j < i {
                assert(front[j] == k);
            }
        }
    }
    let next = picked.push(keys[i]);
    assert forall|k: u32| #[trigger] next.contains(k) <==> picked.contains(k) || k == keys[i] by {
        if picked.contains(k) {
            let j = choose|j: int| 0 <= j < picked.len() && picked[j] == k;
            assert(next[j] == k);
        }
        assert(next[picked.len() as int] == keys[i]);
    }
    assert forall|j: int| 0 <= j < picked.len() implies #[trigger] picked[j] < keys[i] by {
        assert(picked.contains(picked[j]));
        let n = choose|n: int| 0 <= n < front.len() && front[n] == picked[j];
        assert(keys[n] < keys[i]);
    }
    assert forall|k: u32| #[trigger] picked.contains(k) <==> within(front, set).contains(k) by {}
    if set.contains(keys[i]) {
        assert forall|a: int, b: int|
            #![trigger next[a], next[b]]
            0 <= a < b < next.len() implies next[a] < next[b] by {
            if b < picked.len() {
                assert(picked[a] < picked[b]);
            }
        }
    }
}

/// Nothing picked from nothing lists nothing, and all of a list is its own end.
pub proof fn lemma_pick_ends(keys: Seq<u32>, set: Set<u32>, all: Set<u32>)
    requires
        lists(keys, all),
        set.subset_of(all),
    ensures
        lists(Seq::empty(), within(keys.take(0), set)),
        within(keys.take(keys.len() as int), set) == set,
{
    assert(keys.take(keys.len() as int) =~= keys);
    assert(within(keys, set) =~= set) by {
        assert forall|k: u32| set.contains(k) implies #[trigger] within(keys, set).contains(k) by {
            assert(keys.contains(k));
        }
    }
}

/// The keys of a map, in ascending order.
pub fn sorted_keys<V>(m: &BTreeMap<u32, V>) -> (r: Vec<u32>)
    ensures
        lists(r@, m@.dom()),
{
    let mut out: Vec<u32> = Vec::new();
    let pairs = m.iter();
    let ghost all = pairs.remaining();
    assert(vstd::laws_cmp::obeys_cmp::<u32>());
    let ghost keys = all.map_values(|kv: (&u32, &V)| *kv.0);
    assert(vstd::std_specs::btree::increasing_seq(keys));
    for pair in it: pairs
        invariant
            it.seq() == all,
            keys == all.map_values(|kv: (&u32, &V)| *kv.0),
            out@.len() == it.index(),
            forall|i: int| #![trigger out@[i]] 0 <= i < out@.len() ==> out@[i] == keys[i],
    {
        out.push(*pair.0);
    }
    proof {
        assert(out@ =~= keys);
        assert forall|i: int, j: int|
            #![trigger keys[i], keys[j]]
            0 <= i < j < keys.len() implies keys[i] < keys[j] by {
            assert(keys[i].cmp_spec(&keys[j]) is Less);
        }
        assert forall|k: u32| #[trigger] keys.contains(k) <==> m@.dom().contains(k) by {
            if keys.contains(k) {
                let i = choose|i: int| 0 <= i < keys.len() && keys[i] == k;
                assert(m@.contains_key(*all[i].0));
            }
            if m@.contains_key(k) {
                assert(all.contains((&k, &m@[k])));
                let i = choose|i: int| 0 <= i < all.len() && all[i] == (&k, &m@[k]);
                assert(keys[i] == k);
            }
        }
    }
    out
}

/// The nodes of a graph by key.
pub struct NodeStore {
    nodes: BTreeMap<u32, VersionedGraphNode>,
    /// The keys of the nodes that may be paged out.
    candidates: BTreeMap<u32, ()>,
    resident: usize,
    paged_out: usize,
}

/// What the nodes of a map hold.
spec fn held(nodes: Map<u32, VersionedGraphNode>) -> Map<u32, NodeView> {
    Map::new(|k: u32| nodes.contains_key(k), |k: u32| nodes[k]@)
}

/// One for a node that takes part in paging in the given way, none for another.
spec fn one_if(node: NodeView, presence: Presence) -> int {
    if node.is(presence) {
        1
    } else {
        0
    }
}

/// Storing a node under a new key adds it to the count it belongs to.
proof fn lemma_count_insert(
    nodes: Map<u32, NodeView>,
    k: u32,
    node: NodeView,
    presence: Presence,
)
    requires
        nodes.dom().finite(),
        !nodes.contains_key(k),
    ensures
        keys_with(nodes, presence).finite(),
        keys_with(nodes.insert(k, node), presence).finite(),
        keys_with(nodes.insert(k, node), presence).len() == keys_with(nodes, presence).len()
            + one_if(node, presence),
        keys_with(nodes.insert(k, node), presence).len() <= nodes.dom().len() + 1,
{
    let before = keys_with(nodes, presence);
    let after = keys_with(nodes.insert(k, node), presence);
    assert(before.subset_of(nodes.dom()));
    vstd::set_lib::lemma_len_subset(before, nodes.dom());
    if node.is(presence) {
        assert(after =~= before.insert(k));
    } else {
        assert(after =~= before);
    }
}

/// Taking a node out takes it from the count it belongs to.
proof fn lemma_count_remove(nodes: Map<u32, NodeView>, k: u32, presence: Presence)
    requires
        nodes.dom().finite(),
        nodes.contains_key(k),
    ensures
        keys_with(nodes.remove(k), presence).finite(),
        keys_with(nodes.remove(k), presence).len() == keys_with(nodes, presence).len() - one_if(
            nodes[k],
            presence,
        ),
        keys_with(nodes, presence).len() <= nodes.dom().len(),
{
    let before = keys_with(nodes, presence);
    let after = keys_with(nodes.remove(k), presence);
    assert(before.subset_of(nodes.dom()));
    vstd::set_lib::lemma_len_subset(before, nodes.dom());
    if nodes[k].is(presence) {
        assert(after =~= before.remove(k));
    } else {
        assert(after =~= before);
    }
}

impl View for NodeStore {
    type V = Map<u32, NodeView>;

    closed spec fn view(&self) -> Map<u32, NodeView> {
        held(self.nodes@)
    }
}

impl NodeStore {
    /// Whether every node is in order and the counts are right.
    pub closed spec fn wf(self) -> bool {
        &&& forall|k: u32| #[trigger] self.nodes@.contains_key(k) ==> self.nodes@[k].wf()
        &&& self.resident == keys_with(self@, Presence::Resident).len()
        &&& self.paged_out == keys_with(self@, Presence::PagedOut).len()
        &&& self.candidates@.dom() == keys_with(self@, Presence::Candidate)
    }

    /// A store without nodes.
    pub fn new() -> (r: NodeStore)
        ensures
            r.wf(),
            r@ == Map::<u32, NodeView>::empty(),
    {
        let r: NodeStore = NodeStore {
            nodes: BTreeMap::new(),
            candidates: BTreeMap::new(),
            resident: 0,
            paged_out: 0,
        };
        proof {
            assert(r@ =~= Map::<u32, NodeView>::empty());
            assert(keys_with(r@, Presence::Resident) =~= Set::<u32>::empty());
            assert(keys_with(r@, Presence::PagedOut) =~= Set::<u32>::empty());
            assert(keys_with(r@, Presence::Candidate) =~= Set::<u32>::empty());
            assert(r.candidates@.dom() =~= Set::<u32>::empty());
        }
        r
    }

    /// How many nodes there are.
    pub fn len(&self) -> (r: usize)
        requires
            self.wf(),
        ensures
            self@.dom().finite(),
            r == self@.dom().len(),
    {
        assert(self@.dom() =~= self.nodes@.dom());
        self.nodes.len()
    }

    /// The node under a key.
    pub fn get(&self, k: u32) -> (r: Option<&VersionedGraphNode>)
        requires
            self.wf(),
        ensures
            match r {
                Some(node) => node.wf() && self@.contains_key(k) && self@[k] == node@,
                None => !self@.contains_key(k),
            },
    {
        self.nodes.get(&k)
    }

    /// The keys of all nodes, in ascending order.
    pub fn keys(&self) -> (r: Vec<u32>)
        requires
            self.wf(),
        ensures
            lists(r@, self@.dom()),
    {
        assert(self@.dom() =~= self.nodes@.dom());
        sorted_keys(&self.nodes)
    }

    /// The keys of the nodes that may be paged out, in ascending order.
    pub fn page_out_candidates(&self) -> (r: Vec<u32>)
        requires
            self.wf(),
        ensures
            lists(r@, keys_with(self@, Presence::Candidate)),
    {
        sorted_keys(&self.candidates)
    }

    /// How many nodes take part in paging in each way.
    pub fn pagable_node_counts(&self) -> (r: PagableNodeCounts)
        requires
            self.wf(),
        ensures
            r.resident == keys_with(self@, Presence::Resident).len(),
            r.paged_out == keys_with(self@, Presence::PagedOut).len(),
            r.candidates == keys_with(self@, Presence::Candidate).len(),
    {
        PagableNodeCounts {
            resident: self.resident,
            paged_out: self.paged_out,
            candidates: self.candidates.len(),
        }
    }

    /// Takes the node under a key out.
    pub fn remove(&mut self, k: u32) -> (r: Option<VersionedGraphNode>)
        requires
            old(self).wf(),
        ensures
            final(self).wf(),
            final(self)@ == old(self)@.remove(k),
            match r {
                Some(node) => node.wf() && old(self)@.contains_key(k) && old(self)@[k] == node@,
                None => !old(self)@.contains_key(k),
            },
    {
        let ghost before = self@;
        let taken: Option<VersionedGraphNode> = self.nodes.remove(&k);
        assert(self@ =~= before.remove(k));
        match &taken {
            Some(node) => {
                proof {
                    assert(before.dom() =~= old(self).nodes@.dom());
                    lemma_count_remove(before, k, Presence::Resident);
                    lemma_count_remove(before, k, Presence::PagedOut);
                }
                match node.kept() {
                    Some(PagableNodeValue::PagedOut(_)) => {
                        self.paged_out -= 1;
                    },
                    Some(_) => {
                        self.resident -= 1;
                    },
                    None => {},
                }
                let _ = self.candidates.remove(&k);
                assert(self.candidates@.dom() =~= keys_with(self@, Presence::Candidate));
            },
            None => {
                assert(self@ =~= before);
            },
        }
        taken
    }

    /// Stores a node under a key, and gives back the one that was there.
    pub fn insert(&mut self, k: u32, node: VersionedGraphNode) -> (r: Option<VersionedGraphNode>)
        requires
            old(self).wf(),
            node.wf(),
        ensures
            final(self).wf(),
            final(self)@ == old(self)@.insert(k, node@),
            match r {
                Some(node) => node.wf() && old(self)@.contains_key(k) && old(self)@[k] == node@,
                None => !old(self)@.contains_key(k),
            },
    {
        let taken: Option<VersionedGraphNode> = self.remove(k);
        let ghost before = self@;
        let kept: Option<PagableNodeValue> = node.kept();
        let ghost stored = node@;
        let ghost counted = *self;
        let _ = self.nodes.insert(k, node);
        proof {
            assert(self@ =~= before.insert(k, stored));
            assert(self@ =~= old(self)@.insert(k, stored));
            assert(before.dom() =~= counted.nodes@.dom());
            lemma_count_insert(before, k, stored, Presence::Resident);
            lemma_count_insert(before, k, stored, Presence::PagedOut);
            assert(self.nodes@.dom().len() == self.nodes.len());
            assert(self.nodes@.dom() =~= counted.nodes@.dom().insert(k));
        }
        match kept {
            Some(PagableNodeValue::PagedOut(_)) => {
                self.paged_out += 1;
            },
            Some(PagableNodeValue::Fresh(_)) => {
                self.resident += 1;
                let _ = self.candidates.insert(k, ());
            },
            Some(_) => {
                self.resident += 1;
            },
            None => {},
        }
        assert(self.candidates@.dom() =~= keys_with(self@, Presence::Candidate));
        taken
    }
}

/// No node is in memory and in the store at once, and there are at least as many nodes
/// as there are nodes in memory and nodes in the store together.
pub proof fn law_counts_fit(nodes: Map<u32, NodeView>)
    requires
        nodes.dom().finite(),
    ensures
        keys_with(nodes, Presence::Resident).disjoint(keys_with(nodes, Presence::PagedOut)),
        keys_with(nodes, Presence::Candidate).subset_of(keys_with(nodes, Presence::Resident)),
        keys_with(nodes, Presence::Resident).len() + keys_with(nodes, Presence::PagedOut).len()
            <= nodes.dom().len(),
{
    let a = keys_with(nodes, Presence::Resident);
    let b = keys_with(nodes, Presence::PagedOut);
    assert(a.subset_of(nodes.dom()));
    assert(b.subset_of(nodes.dom()));
    vstd::set_lib::lemma_len_subset(a, nodes.dom());
    vstd::set_lib::lemma_len_subset(b, nodes.dom());
    vstd::set_lib::lemma_set_disjoint_lens(a, b);
    assert((a + b).subset_of(nodes.dom()));
    vstd::set_lib::lemma_len_subset(a + b, nodes.dom());
}

} // verus!
