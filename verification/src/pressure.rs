//! Eviction under memory pressure: which cold values are paged out while builds run.
use std::collections::HashSet;
use vstd::prelude::*;

use crate::core_state::{evictable, CoreState, CoreView, PressureCandidate};
use crate::graph::reads;
use crate::nodes::{last_run, NodeView};
use crate::sort::{holds_range, sorted_indices, IndexOrder};
use crate::store::lists;
use crate::text::{contains_name, texts};
use crate::tracker::{ActiveVersion, SharedCache};
use crate::value::{DiceKey, DiceValidValue, PagableNodeValue};
use crate::versions::{begins_run, covers, VersionRanges};

verus! {

/// How many values are serialized at a time: what they are serialized to is held in memory
/// until it is written, so a large sweep is done in parts.
pub const SERIALIZE_BATCH: usize = 256;

/// What an eviction under memory pressure sets out to do. A value that is recomputed
/// meanwhile stays in memory all the same.
#[derive(Debug, Clone, Copy, PartialEq, Eq, Structural)]
pub struct PressureEvictStats {
    /// How many values could be evicted.
    pub candidates: usize,
    /// How many of them were selected.
    pub selected: usize,
}

impl Default for PressureEvictStats {
    fn default() -> (r: PressureEvictStats)
        ensures
            r == (PressureEvictStats { candidates: 0, selected: 0 }),
    {
        PressureEvictStats { candidates: 0, selected: 0 }
    }
}

/// What is to be evicted: batch after batch is serialized and paged out.
#[derive(Debug, PartialEq, Eq)]
pub struct EvictionPlan {
    pub stats: PressureEvictStats,
    pub batches: Vec<Vec<(DiceKey, DiceValidValue)>>,
}

/// The candidates whose keys are of an allowed type, in their order.
pub open spec fn allowed_candidates(
    candidates: Seq<PressureCandidate>,
    key_types: Seq<Seq<char>>,
    allowed: Seq<Seq<char>>,
) -> Seq<PressureCandidate> {
    candidates.filter(
        |c: PressureCandidate|
            c.key.index < key_types.len() && allowed.contains(key_types[c.key.index as int]),
    )
}

/// Whether candidate `a` is to be evicted no later than candidate `b`: it is colder, or as
/// cold and stands first.
pub open spec fn colder(candidates: Seq<PressureCandidate>, a: int, b: int) -> bool {
    let (x, y) = (candidates[a].last_verified_begin.number, candidates[b].last_verified_begin.number);
    x < y || (x == y && a <= b)
}

/// Whether `order` lists the positions of all candidates, the coldest first.
pub open spec fn coldest_first(candidates: Seq<PressureCandidate>, order: Seq<usize>) -> bool {
    &&& holds_range(order, 0, candidates.len() as int)
    &&& forall|i: int, j: int|
        #![trigger order[i], order[j]]
        0 <= i < j < order.len() ==> colder(candidates, order[i] as int, order[j] as int)
}

/// The keys and values of the candidates at the given positions.
pub open spec fn picked(candidates: Seq<PressureCandidate>, order: Seq<usize>) -> Seq<
    (DiceKey, DiceValidValue),
> {
    order.map_values(|i: usize| (candidates[i as int].key, candidates[i as int].value))
}

/// What is in the batches, one after the other.
pub open spec fn in_batches(batches: Seq<Vec<(DiceKey, DiceValidValue)>>) -> Seq<
    (DiceKey, DiceValidValue),
>
    decreases batches.len(),
{
    if batches.len() == 0 {
        Seq::empty()
    } else {
        in_batches(batches.drop_last()) + batches.last()@
    }
}

/// Whether the plan evicts the coldest of the allowed candidates, at most `max_values`, in
/// batches that are full but for the last.
pub open spec fn is_plan(
    plan: EvictionPlan,
    candidates: Seq<PressureCandidate>,
    key_types: Seq<Seq<char>>,
    allowed: Seq<Seq<char>>,
    max_values: nat,
) -> bool {
    let eligible = allowed_candidates(candidates, key_types, allowed);
    &&& plan.stats.candidates == eligible.len()
    &&& plan.stats.selected == (if max_values < eligible.len() {
        max_values
    } else {
        eligible.len()
    })
    &&& exists|order: Seq<usize>| #[trigger]
        coldest_first(eligible, order) && in_batches(plan.batches@) == picked(
            eligible,
            order.take(plan.stats.selected as int),
        )
    &&& forall|b: int|
        #![trigger plan.batches@[b]]
        0 <= b < plan.batches@.len() ==> 0 < plan.batches@[b]@.len() <= SERIALIZE_BATCH && (b + 1
            < plan.batches@.len() ==> plan.batches@[b]@.len() == SERIALIZE_BATCH)
}

/// The coldest candidate first.
struct ColdestFirst<'a> {
    candidates: &'a Vec<PressureCandidate>,
}

impl<'a> IndexOrder for ColdestFirst<'a> {
    closed spec fn count(&self) -> nat {
        self.candidates@.len()
    }

    closed spec fn valid(&self) -> bool {
        true
    }

    closed spec fn leq(&self, a: int, b: int) -> bool {
        colder(self.candidates@, a, b)
    }

    proof fn total(&self, a: int, b: int) {
    }

    proof fn transitive(&self, a: int, b: int, c: int) {
    }

    fn no_later(&self, a: usize, b: usize) -> (r: bool) {
        let x: u64 = self.candidates[a].last_verified_begin.number;
        let y: u64 = self.candidates[b].last_verified_begin.number;
        x < y || (x == y && a <= b)
    }
}

/// The candidates whose keys are of an allowed type.
fn retain_allowed(
    candidates: &Vec<PressureCandidate>,
    key_types: &Vec<String>,
    allowed: &Vec<String>,
) -> (r: Vec<PressureCandidate>)
    ensures
        r@ == allowed_candidates(candidates@, texts(key_types@), texts(allowed@)),
{
    let mut out: Vec<PressureCandidate> = Vec::new();
    let ghost names = texts(key_types@);
    let ghost wanted = texts(allowed@);
    let ghost keep = |c: PressureCandidate|
        c.key.index < names.len() && wanted.contains(names[c.key.index as int]);
    let mut i: usize = 0;
    proof {
        reveal(Seq::filter);
        assert(candidates@.take(0).filter(keep) =~= Seq::<PressureCandidate>::empty());
    }
    while i < candidates.len()
        invariant
            i <= candidates@.len(),
            names == texts(key_types@),
            wanted == texts(allowed@),
            keep == (|c: PressureCandidate|
                c.key.index < names.len() && wanted.contains(names[c.key.index as int])),
            out@ == candidates@.take(i as int).filter(keep),
        decreases candidates@.len() - i,
    {
        let c: PressureCandidate = candidates[i];
        proof {
            assert(candidates@.take(i + 1).drop_last() =~= candidates@.take(i as int));
            reveal(Seq::filter);
        }
        let index: usize = c.key.index as usize;
        if index < key_types.len() && contains_name(allowed, key_types[index].as_str()) {
            out.push(c);
        }
        i += 1;
    }
    assert(candidates@.take(candidates@.len() as int) =~= candidates@);
    out
}

/// Plans which of the candidates to evict: those of an allowed type, the coldest first, at
/// most `max_values` of them. The name of a key's type is found under its index.
pub fn plan_eviction(
    candidates: &Vec<PressureCandidate>,
    key_types: &Vec<String>,
    allowed: &Vec<String>,
    max_values: usize,
) -> (r: EvictionPlan)
    ensures
        is_plan(r, candidates@, texts(key_types@), texts(allowed@), max_values as nat),
{
    let eligible: Vec<PressureCandidate> = retain_allowed(candidates, key_types, allowed);
    let order: ColdestFirst<'_> = ColdestFirst { candidates: &eligible };
    let ranked: Vec<usize> = sorted_indices(&order, eligible.len());
    let selected: usize = if max_values < ranked.len() {
        max_values
    } else {
        ranked.len()
    };
    assert(coldest_first(eligible@, ranked@)) by {
        assert forall|i: int, j: int|
            #![trigger ranked@[i], ranked@[j]]
            0 <= i < j < ranked@.len() implies colder(
            eligible@,
            ranked@[i] as int,
            ranked@[j] as int,
        ) by {
            assert(order.leq(ranked@[i] as int, ranked@[j] as int));
        }
    }
    let mut batches: Vec<Vec<(DiceKey, DiceValidValue)>> = Vec::new();
    let mut i: usize = 0;
    assert(picked(eligible@, ranked@.take(0)) =~= Seq::<(DiceKey, DiceValidValue)>::empty());
    while i < selected
        invariant
            i <= selected <= ranked@.len(),
            holds_range(ranked@, 0, eligible@.len() as int),
            in_batches(batches@) == picked(eligible@, ranked@.take(i as int)),
            forall|b: int|
                #![trigger batches@[b]]
                0 <= b < batches@.len() ==> 0 < batches@[b]@.len() <= SERIALIZE_BATCH && (b + 1
                    < batches@.len() || i < selected ==> batches@[b]@.len() == SERIALIZE_BATCH),
        decreases selected - i,
    {
        let split: usize = if selected - i < SERIALIZE_BATCH {
            selected - i
        } else {
            SERIALIZE_BATCH
        };
        let mut batch: Vec<(DiceKey, DiceValidValue)> = Vec::new();
        let mut j: usize = 0;
        while j < split
            invariant
                j <= split,
                i + split <= selected <= ranked@.len(),
                holds_range(ranked@, 0, eligible@.len() as int),
                batch@ =~= picked(eligible@, ranked@.subrange(i as int, i + j)),
            decreases split - j,
        {
            assert(ranked@.contains(ranked@[i + j]));
            let c: PressureCandidate = eligible[ranked[i + j]];
            batch.push((c.key, c.value));
            j += 1;
        }
        let ghost before = batches@;
        let ghost part = batch@;
        batches.push(batch);
        proof {
            assert(batches@.drop_last() =~= before);
            assert(picked(eligible@, ranked@.take(i as int)) + part =~= picked(
                eligible@,
                ranked@.take(i + split),
            ));
            assert forall|b: int| #![trigger batches@[b]] 0 <= b < batches@.len() implies 0
                < batches@[b]@.len() <= SERIALIZE_BATCH && (b + 1 < batches@.len() || i + split
                < selected ==> batches@[b]@.len() == SERIALIZE_BATCH) by {
                if b < before.len() {
                    assert(batches@[b] == before[b]);
                }
            }
        }
        i += split;
    }
    EvictionPlan {
        stats: PressureEvictStats { candidates: eligible.len(), selected },
        batches,
    }
}

/// Whether the list holds the candidates of the state, in ascending order of keys.
pub open spec fn is_candidates(
    state: CoreView,
    referenced: Set<u32>,
    pending: Set<u32>,
    candidates: Seq<PressureCandidate>,
) -> bool {
    &&& lists(
        candidates.map_values(|c: PressureCandidate| c.key.index),
        evictable(state.nodes, referenced, pending),
    )
    &&& forall|i: int|
        #![trigger candidates[i]]
        0 <= i < candidates.len() ==> {
            let node = state.nodes[candidates[i].key.index];
            &&& node->value.hydrated() == Some(candidates[i].value)
            &&& candidates[i].last_verified_begin.number == last_run(node->verified)
        }
}

/// An incremental computation: its state, the names of the types of its keys by index, and
/// whether it has a store for values.
pub struct Dice {
    pub state: CoreState,
    pub key_types: Vec<String>,
    pub pagable_storage: bool,
}

impl Dice {
    /// Plans an eviction under memory pressure: of the values that no active transaction
    /// references and no pending computation read, those whose keys are of an allowed type,
    /// the coldest first, at most `max_values` of them. Without a store there is nothing
    /// to do.
    pub fn evict_under_pressure(
        &self,
        referenced: &HashSet<u32>,
        pending: &HashSet<u32>,
        max_values: usize,
        allowed_key_types: &Vec<String>,
    ) -> (r: EvictionPlan)
        requires
            self.state.wf(),
        ensures
            !self.pagable_storage ==> r.stats == (PressureEvictStats { candidates: 0, selected: 0 })
                && r.batches@.len() == 0,
            self.pagable_storage ==> exists|candidates: Seq<PressureCandidate>| #[trigger]
                is_candidates(self.state@, referenced@, pending@, candidates) && is_plan(
                    r,
                    candidates,
                    texts(self.key_types@),
                    texts(allowed_key_types@),
                    max_values as nat,
                ),
    {
        if !self.pagable_storage {
            return EvictionPlan { stats: PressureEvictStats::default(), batches: Vec::new() };
        }
        let candidates: Vec<PressureCandidate> = self.state.pressure_eviction_candidates(
            referenced,
            pending,
        );
        assert(is_candidates(self.state@, referenced@, pending@, candidates@));
        plan_eviction(&candidates, &self.key_types, allowed_key_types, max_values)
    }
}

/// What eviction asks of the core state.
pub enum PressureRequest {
    /// The caches of the active transactions.
    ActiveCaches,
    /// The nodes whose values may be evicted.
    Candidates { referenced: HashSet<u32>, pending: HashSet<u32> },
}

/// What the core state answers.
pub enum PressureReply {
    ActiveCaches(Vec<SharedCache>),
    Candidates(Vec<PressureCandidate>),
}

impl PressureRequest {
    /// Answers the request. The state stays as it is.
    pub fn handle(self, state: &CoreState) -> (r: PressureReply)
        requires
            state.wf(),
        ensures
            match self {
                PressureRequest::ActiveCaches => r matches PressureReply::ActiveCaches(caches)
                    && caches@ == state@.versions.active.map_values(
                    |a: ActiveVersion| a.cache,
                ),
                PressureRequest::Candidates { referenced, pending } => r matches PressureReply::Candidates(
                    candidates,
                ) && is_candidates(state@, referenced@, pending@, candidates@),
            },
    {
        match self {
            PressureRequest::ActiveCaches => {
                let caches: Vec<SharedCache> = state.active_caches();
                assert(caches@ =~= state@.versions.active.map_values(|a: ActiveVersion| a.cache));
                PressureReply::ActiveCaches(caches)
            },
            PressureRequest::Candidates { referenced, pending } => PressureReply::Candidates(
                state.pressure_eviction_candidates(&referenced, &pending),
            ),
        }
    }
}

/// A task in the cache of a transaction: the key that it computes, and whether it is still
/// at it.
#[derive(Debug, Clone, Copy, PartialEq, Eq, Structural)]
pub struct CachedTask {
    pub key: DiceKey,
    pub pending: bool,
}

/// Adds the keys that a cache references to `referenced`, and those of them whose tasks are
/// pending to `pending`.
pub fn collect_referenced_keys(
    tasks: &Vec<CachedTask>,
    referenced: &mut HashSet<u32>,
    pending: &mut HashSet<u32>,
)
    ensures
        forall|k: u32| #[trigger]
            final(referenced)@.contains(k) <==> old(referenced)@.contains(k) || exists|i: int|
                #![trigger tasks@[i]]
                0 <= i < tasks@.len() && tasks@[i].key.index == k,
        forall|k: u32| #[trigger]
            final(pending)@.contains(k) <==> old(pending)@.contains(k) || exists|i: int|
                #![trigger tasks@[i]]
                0 <= i < tasks@.len() && tasks@[i].key.index == k && tasks@[i].pending,
{
    broadcast use vstd::std_specs::hash::group_hash_axioms;

    let mut n: usize = 0;
    while n < tasks.len()
        invariant
            n <= tasks@.len(),
            forall|k: u32| #[trigger]
                referenced@.contains(k) <==> old(referenced)@.contains(k) || exists|i: int|
                    #![trigger tasks@[i]]
                    0 <= i < n && tasks@[i].key.index == k,
            forall|k: u32| #[trigger]
                pending@.contains(k) <==> old(pending)@.contains(k) || exists|i: int|
                    #![trigger tasks@[i]]
                    0 <= i < n && tasks@[i].key.index == k && tasks@[i].pending,
        decreases tasks@.len() - n,
    {
        let task: CachedTask = tasks[n];
        assert(tasks@[n as int] == task);
        let _ = referenced.insert(task.key.index);
        if task.pending {
            let _ = pending.insert(task.key.index);
        }
        n += 1;
    }
}

/// Nothing that is left in memory for want of room in the plan is colder than anything that
/// is evicted.
pub proof fn law_the_coldest_go_first(
    candidates: Seq<PressureCandidate>,
    order: Seq<usize>,
    selected: int,
    evicted: int,
    left: int,
)
    requires
        coldest_first(candidates, order),
        0 <= evicted < selected <= left < order.len(),
    ensures
        candidates[order[evicted] as int].last_verified_begin.number
            <= candidates[order[left] as int].last_verified_begin.number,
{
    assert(colder(candidates, order[evicted] as int, order[left] as int));
}

/// There is one order in which the coldest come first, so one plan for given candidates.
pub proof fn law_the_plan_is_deterministic(
    candidates: Seq<PressureCandidate>,
    a: Seq<usize>,
    b: Seq<usize>,
)
    requires
        coldest_first(candidates, a),
        coldest_first(candidates, b),
    ensures
        a == b,
{
    assert forall|x: usize| #[trigger] a.contains(x) <==> b.contains(x) by {
        assert(b.contains(x) <==> 0 <= x < candidates.len());
    }
    lemma_order_unique(candidates, a, b);
}

/// Two lists of the same positions with the coldest first are the same.
proof fn lemma_order_unique(candidates: Seq<PressureCandidate>, a: Seq<usize>, b: Seq<usize>)
    requires
        a.len() == b.len(),
        a.no_duplicates(),
        b.no_duplicates(),
        forall|x: usize| #[trigger] a.contains(x) <==> b.contains(x),
        forall|i: int, j: int|
            #![trigger a[i], a[j]]
            0 <= i < j < a.len() ==> colder(candidates, a[i] as int, a[j] as int),
        forall|i: int, j: int|
            #![trigger b[i], b[j]]
            0 <= i < j < b.len() ==> colder(candidates, b[i] as int, b[j] as int),
    ensures
        a == b,
    decreases a.len(),
{
    if a.len() == 0 {
        assert(a =~= b);
    } else {
        let m = a.len() - 1;
        assert(a[m] == b[m]) by {
            assert(a.contains(a[m]) && b.contains(b[m]));
            assert(a.contains(b[m]) <==> b.contains(b[m]));
            let i = choose|i: int| 0 <= i < a.len() && a[i] == b[m];
            let j = choose|j: int| 0 <= j < b.len() && b[j] == a[m];
            if i < m && j < m {
                assert(colder(candidates, a[i] as int, a[m] as int));
                assert(colder(candidates, b[j] as int, b[m] as int));
            }
        }
        let c = a.drop_last();
        let d = b.drop_last();
        assert forall|x: usize| #[trigger] c.contains(x) <==> d.contains(x) by {
            assert(a.contains(x) <==> b.contains(x));
            if c.contains(x) {
                let i = choose|i: int| 0 <= i < c.len() && c[i] == x;
                assert(a[i] == x);
                let j = choose|j: int| 0 <= j < b.len() && b[j] == x;
                assert(d[j] == x);
            }
            if d.contains(x) {
                let i = choose|i: int| 0 <= i < d.len() && d[i] == x;
                assert(b[i] == x);
                let j = choose|j: int| 0 <= j < a.len() && a[j] == x;
                assert(c[j] == x);
            }
        }
        lemma_order_unique(candidates, c, d);
        assert(a =~= c.push(a[m]));
        assert(b =~= d.push(b[m]));
    }
}

/// Whether the name of the candidate's key's type is one of the allowed ones.
pub open spec fn has_allowed_type(
    c: PressureCandidate,
    key_types: Seq<Seq<char>>,
    allowed: Seq<Seq<char>>,
) -> bool {
    exists|i: int|
        #![trigger allowed[i]]
        0 <= i < allowed.len() && c.key.index < key_types.len() && allowed[i]
            == key_types[c.key.index as int]
}

/// What is kept of a list.
proof fn lemma_kept<A>(s: Seq<A>, keep: spec_fn(A) -> bool, x: A)
    ensures
        s.filter(keep).contains(x) <==> s.contains(x) && keep(x),
    decreases s.len(),
{
    reveal(Seq::filter);
    if s.len() > 0 {
        let front = s.drop_last();
        lemma_kept(front, keep, x);
        let (a, b) = (front.filter(keep), s.filter(keep));
        if s.contains(x) && keep(x) {
            let i = choose|i: int| 0 <= i < s.len() && s[i] == x;
            if i < front.len() {
                assert(front[i] == x);
                let j = choose|j: int| 0 <= j < a.len() && a[j] == x;
                assert(b[j] == x);
            } else {
                assert(b[a.len() as int] == x);
            }
        }
        if b.contains(x) {
            let j = choose|j: int| 0 <= j < b.len() && b[j] == x;
            if j < a.len() {
                assert(a[j] == x);
                let i = choose|i: int| 0 <= i < front.len() && front[i] == x;
                assert(s[i] == x);
            } else {
                assert(s[s.len() - 1] == x);
            }
        }
    }
}

/// A candidate is eligible just where the name of its key's type equals one of the allowed names,
/// whichever, and wherever that stands in the list.
pub proof fn law_any_allowed_type_is_eligible(
    candidates: Seq<PressureCandidate>,
    key_types: Seq<Seq<char>>,
    allowed: Seq<Seq<char>>,
    c: PressureCandidate,
)
    ensures
        allowed_candidates(candidates, key_types, allowed).contains(c) <==> candidates.contains(c)
            && has_allowed_type(c, key_types, allowed),
{
    let keep = |x: PressureCandidate|
        x.key.index < key_types.len() && allowed.contains(key_types[x.key.index as int]);
    lemma_kept(candidates, keep, c);
    if has_allowed_type(c, key_types, allowed) {
        let i = choose|i: int|
            #![trigger allowed[i]]
            0 <= i < allowed.len() && c.key.index < key_types.len() && allowed[i]
                == key_types[c.key.index as int];
        assert(allowed.contains(allowed[i]));
    }
    if keep(c) {
        let name = key_types[c.key.index as int];
        let i = choose|i: int| 0 <= i < allowed.len() && allowed[i] == name;
        assert(allowed[i] == name);
    }
}

/// Naming more types, or the same in another order, never takes a candidate away.
pub proof fn law_more_names_never_remove_a_candidate(
    candidates: Seq<PressureCandidate>,
    key_types: Seq<Seq<char>>,
    allowed: Seq<Seq<char>>,
    more: Seq<Seq<char>>,
    c: PressureCandidate,
)
    requires
        forall|i: int|
            #![trigger allowed[i]]
            0 <= i < allowed.len() ==> exists|j: int|
                #![trigger more[j]]
                0 <= j < more.len() && more[j] == allowed[i],
        allowed_candidates(candidates, key_types, allowed).contains(c),
    ensures
        allowed_candidates(candidates, key_types, more).contains(c),
{
    law_any_allowed_type_is_eligible(candidates, key_types, allowed, c);
    law_any_allowed_type_is_eligible(candidates, key_types, more, c);
    let i = choose|i: int|
        #![trigger allowed[i]]
        0 <= i < allowed.len() && c.key.index < key_types.len() && allowed[i]
            == key_types[c.key.index as int];
    let j = choose|j: int| #![trigger more[j]] 0 <= j < more.len() && more[j] == allowed[i];
    assert(more[j] == key_types[c.key.index as int]);
}

/// Whether the plan evicts the candidate.
pub open spec fn is_evicted(plan: EvictionPlan, c: PressureCandidate) -> bool {
    exists|b: int, i: int|
        #![trigger plan.batches@[b]@[i]]
        0 <= b < plan.batches@.len() && 0 <= i < plan.batches@[b]@.len() && plan.batches@[b]@[i]
            == (c.key, c.value)
}

/// What is in the batches is in one of them.
proof fn lemma_in_batches(
    batches: Seq<Vec<(DiceKey, DiceValidValue)>>,
    x: (DiceKey, DiceValidValue),
)
    ensures
        in_batches(batches).contains(x) <==> exists|b: int, i: int|
            #![trigger batches[b]@[i]]
            0 <= b < batches.len() && 0 <= i < batches[b]@.len() && batches[b]@[i] == x,
    decreases batches.len(),
{
    if batches.len() > 0 {
        let front = batches.drop_last();
        let last = batches.last()@;
        let n = batches.len() - 1;
        lemma_in_batches(front, x);
        let all = in_batches(front) + last;
        if all.contains(x) {
            let j = choose|j: int| 0 <= j < all.len() && all[j] == x;
            if j < in_batches(front).len() {
                assert(in_batches(front)[j] == x);
                let (b, i) = choose|b: int, i: int|
                    #![trigger front[b]@[i]]
                    0 <= b < front.len() && 0 <= i < front[b]@.len() && front[b]@[i] == x;
                assert(batches[b]@[i] == x);
            } else {
                assert(batches[n]@[j - in_batches(front).len()] == x);
            }
        }
        if exists|b: int, i: int|
            #![trigger batches[b]@[i]]
            0 <= b < batches.len() && 0 <= i < batches[b]@.len() && batches[b]@[i] == x {
            let (b, i) = choose|b: int, i: int|
                #![trigger batches[b]@[i]]
                0 <= b < batches.len() && 0 <= i < batches[b]@.len() && batches[b]@[i] == x;
            if b < n {
                assert(front[b]@[i] == x);
                assert(in_batches(front).contains(x));
                let j = choose|j: int| 0 <= j < in_batches(front).len() && in_batches(front)[j] == x;
                assert(all[j] == x);
            } else {
                assert(all[in_batches(front).len() + i] == x);
            }
        }
    }
}

/// Whether no two candidates are of one key.
pub open spec fn one_per_key(candidates: Seq<PressureCandidate>) -> bool {
    forall|i: int, j: int|
        #![trigger candidates[i], candidates[j]]
        0 <= i < j < candidates.len() ==> candidates[i].key != candidates[j].key
}

/// A plan evicts candidates of allowed types only. It leaves one of an allowed type only where it
/// evicts as many as it may, and then none that is colder than one it evicts. With room for all,
/// all of them go.
pub proof fn law_what_a_plan_evicts(
    plan: EvictionPlan,
    candidates: Seq<PressureCandidate>,
    key_types: Seq<Seq<char>>,
    allowed: Seq<Seq<char>>,
    max_values: nat,
    gone: PressureCandidate,
    c: PressureCandidate,
)
    requires
        is_plan(plan, candidates, key_types, allowed, max_values),
        one_per_key(candidates),
        candidates.contains(gone),
        candidates.contains(c),
        is_evicted(plan, gone),
    ensures
        has_allowed_type(gone, key_types, allowed),
        has_allowed_type(c, key_types, allowed) && !is_evicted(plan, c) ==> plan.stats.selected
            == max_values && gone.last_verified_begin.number <= c.last_verified_begin.number,
{
    let eligible = allowed_candidates(candidates, key_types, allowed);
    let n = plan.stats.selected as int;
    let order = choose|order: Seq<usize>| #[trigger]
        coldest_first(eligible, order) && in_batches(plan.batches@) == picked(
            eligible,
            order.take(n),
        );
    let list = picked(eligible, order.take(n));
    let g = (gone.key, gone.value);
    lemma_in_batches(plan.batches@, g);
    assert(list.contains(g));
    let p = choose|p: int| 0 <= p < list.len() && list[p] == g;
    assert(order.contains(order[p]));
    let a = eligible[order[p] as int];
    assert(eligible.contains(a));
    law_any_allowed_type_is_eligible(candidates, key_types, allowed, a);
    lemma_same_key(candidates, a, gone);
    if has_allowed_type(c, key_types, allowed) && !is_evicted(plan, c) {
        law_any_allowed_type_is_eligible(candidates, key_types, allowed, c);
        let j = choose|j: int| 0 <= j < eligible.len() && eligible[j] == c;
        assert(order.contains(j as usize));
        let q = choose|q: int| 0 <= q < order.len() && order[q] == j as usize;
        if q < n {
            assert(list[q] == (c.key, c.value));
            assert(list.contains((c.key, c.value)));
            lemma_in_batches(plan.batches@, (c.key, c.value));
        }
        assert(colder(eligible, order[p] as int, order[q] as int));
    }
}

/// Candidates of one key are one candidate.
proof fn lemma_same_key(
    candidates: Seq<PressureCandidate>,
    a: PressureCandidate,
    b: PressureCandidate,
)
    requires
        one_per_key(candidates),
        candidates.contains(a),
        candidates.contains(b),
        a.key == b.key,
    ensures
        a == b,
{
    let i = choose|i: int| 0 <= i < candidates.len() && candidates[i] == a;
    let j = choose|j: int| 0 <= j < candidates.len() && candidates[j] == b;
    if i < j {
        assert(candidates[i].key != candidates[j].key);
    }
    if j < i {
        assert(candidates[j].key != candidates[i].key);
    }
}

/// A plan with room for all candidates evicts every one of an allowed type.
pub proof fn law_with_room_for_all_all_go(
    plan: EvictionPlan,
    candidates: Seq<PressureCandidate>,
    key_types: Seq<Seq<char>>,
    allowed: Seq<Seq<char>>,
    max_values: nat,
    c: PressureCandidate,
)
    requires
        is_plan(plan, candidates, key_types, allowed, max_values),
        candidates.len() <= max_values,
        candidates.contains(c),
        has_allowed_type(c, key_types, allowed),
    ensures
        is_evicted(plan, c),
{
    let eligible = allowed_candidates(candidates, key_types, allowed);
    let n = plan.stats.selected as int;
    let order = choose|order: Seq<usize>| #[trigger]
        coldest_first(eligible, order) && in_batches(plan.batches@) == picked(
            eligible,
            order.take(n),
        );
    let list = picked(eligible, order.take(n));
    let keep = |x: PressureCandidate|
        x.key.index < key_types.len() && allowed.contains(key_types[x.key.index as int]);
    lemma_kept_len(candidates, keep);
    law_any_allowed_type_is_eligible(candidates, key_types, allowed, c);
    let j = choose|j: int| 0 <= j < eligible.len() && eligible[j] == c;
    assert(order.contains(j as usize));
    let q = choose|q: int| 0 <= q < order.len() && order[q] == j as usize;
    assert(list[q] == (c.key, c.value));
    assert(list.contains((c.key, c.value)));
    lemma_in_batches(plan.batches@, (c.key, c.value));
}

/// No more is kept than there is.
proof fn lemma_kept_len<A>(s: Seq<A>, keep: spec_fn(A) -> bool)
    ensures
        s.filter(keep).len() <= s.len(),
    decreases s.len(),
{
    reveal(Seq::filter);
    if s.len() > 0 {
        lemma_kept_len(s.drop_last(), keep);
    }
}

/// A plan evicts no more than it may, tells how many, and never counts more as selected than
/// could be.
pub proof fn law_a_plan_keeps_its_bounds(
    plan: EvictionPlan,
    candidates: Seq<PressureCandidate>,
    key_types: Seq<Seq<char>>,
    allowed: Seq<Seq<char>>,
    max_values: nat,
)
    requires
        is_plan(plan, candidates, key_types, allowed, max_values),
    ensures
        plan.stats.selected <= max_values,
        plan.stats.selected <= plan.stats.candidates <= candidates.len(),
        in_batches(plan.batches@).len() == plan.stats.selected,
        plan.stats.selected < plan.stats.candidates ==> plan.stats.selected == max_values,
{
    let keep = |x: PressureCandidate|
        x.key.index < key_types.len() && allowed.contains(key_types[x.key.index as int]);
    lemma_kept_len(candidates, keep);
    let eligible = allowed_candidates(candidates, key_types, allowed);
    let n = plan.stats.selected as int;
    let order = choose|order: Seq<usize>| #[trigger]
        coldest_first(eligible, order) && in_batches(plan.batches@) == picked(
            eligible,
            order.take(n),
        );
}

/// Every value that may be paged out, that no active transaction references and that nothing
/// pending read is among the candidates, with the value that its node holds in memory; and the
/// candidates are one per key, each as cold as the versions say that it was verified at.
pub proof fn law_candidates_are_all_that_is_not_in_use(
    state: CoreView,
    referenced: Set<u32>,
    pending: Set<u32>,
    candidates: Seq<PressureCandidate>,
    k: u32,
    held: DiceValidValue,
)
    requires
        is_candidates(state, referenced, pending, candidates),
    ensures
        one_per_key(candidates),
        state.nodes.contains_key(k) && (state.nodes[k] matches NodeView::Occupied {
            value: PagableNodeValue::Fresh(v),
            ..
        } && v == held) && !referenced.contains(k) && (forall|p: u32| #[trigger]
            pending.contains(p) ==> !reads(state.nodes, p, k)) ==> exists|i: int|
            #![trigger candidates[i]]
            0 <= i < candidates.len() && candidates[i].key.index == k && candidates[i].value == held,
        forall|i: int|
            #![trigger candidates[i]]
            0 <= i < candidates.len() ==> (state.nodes[candidates[i].key.index] matches NodeView::Occupied {
                verified,
                ..
            } && candidates[i].last_verified_begin.number == last_run(verified)),
{
    let keys = candidates.map_values(|c: PressureCandidate| c.key.index);
    assert forall|i: int, j: int|
        #![trigger candidates[i], candidates[j]]
        0 <= i < j < candidates.len() implies candidates[i].key != candidates[j].key by {
        assert(keys[i] < keys[j]);
    }
    if evictable(state.nodes, referenced, pending).contains(k) {
        assert(keys.contains(k));
        let i = choose|i: int| 0 <= i < keys.len() && keys[i] == k;
        assert(candidates[i].key.index == k);
        assert(state.nodes[candidates[i].key.index]->value.hydrated() == Some(candidates[i].value));
    }
    assert forall|i: int|
        #![trigger candidates[i]]
        0 <= i < candidates.len() implies state.nodes[candidates[i].key.index] is Occupied by {
        assert(keys[i] == candidates[i].key.index);
        assert(keys.contains(keys[i]));
    }
}

/// How cold a value is: where the last unbroken run of the versions that it was verified at
/// begins. That version is one of them, the one before is not, and each later one follows on
/// another.
pub proof fn law_coldness_is_where_the_last_run_begins(verified: VersionRanges, w: int)
    requires
        verified.wf(),
        verified@.len() > 0,
    ensures
        ({
            let b = last_run(verified.versions());
            &&& verified.versions().contains(b)
            &&& !verified.versions().contains(b - 1)
            &&& b < w && verified.versions().contains(w) ==> verified.versions().contains(w - 1)
        }),
{
    let s = verified.versions();
    let all = verified@;
    let n = all.len() - 1;
    let b = all[n].begin.number as int;
    assert(all[n].has(b));
    assert(begins_run(s, b)) by {
        if covers(all, b - 1) {
            let i = choose|i: int| 0 <= i < all.len() && #[trigger] all[i].has(b - 1);
            assert(all[i].ends_before(all[n].begin));
        }
    }
    assert forall|c: int| #[trigger] begins_run(s, c) implies c <= b by {
        let i = choose|i: int| 0 <= i < all.len() && #[trigger] all[i].has(c);
        assert(!all[i].has(c - 1));
        if i < n {
            assert(all[i].ends_before(all[n].begin));
        }
    }
    let last = last_run(s);
    assert(begins_run(s, last) && last == b);
    if b < w && s.contains(w) && !s.contains(w - 1) {
        assert(begins_run(s, w));
    }
}

/// What a filter lets through stays in order.
proof fn lemma_filter_keeps_order<A>(s: Seq<A>, keep: spec_fn(A) -> bool, x: int, y: int) -> (r: (
    int,
    int,
))
    requires
        0 <= x < y < s.len(),
        keep(s[x]),
        keep(s[y]),
    ensures
        0 <= r.0 < r.1 < s.filter(keep).len(),
        s.filter(keep)[r.0] == s[x],
        s.filter(keep)[r.1] == s[y],
    decreases s.len(),
{
    reveal(Seq::filter);
    let front = s.drop_last();
    if y < s.len() - 1 {
        lemma_filter_keeps_order(front, keep, x, y)
    } else {
        lemma_kept(front, keep, front[x]);
        let a = choose|a: int| 0 <= a < front.filter(keep).len() && front.filter(keep)[a] == front[x];
        (a, front.filter(keep).len() as int)
    }
}

/// What a filter lets through of a list without duplicates has none.
proof fn lemma_filter_no_duplicates<A>(s: Seq<A>, keep: spec_fn(A) -> bool)
    requires
        s.no_duplicates(),
    ensures
        s.filter(keep).no_duplicates(),
    decreases s.len(),
{
    reveal(Seq::filter);
    if s.len() > 0 {
        let front = s.drop_last();
        lemma_filter_no_duplicates(front, keep);
        assert forall|i: int| 0 <= i < front.filter(keep).len() implies front.filter(keep)[i]
            != s.last() by {
            lemma_kept(front, keep, front.filter(keep)[i]);
        }
    }
}

/// Of two candidates that are as cold, the one that stands first goes first.
pub proof fn law_of_two_as_cold_the_first_goes(
    plan: EvictionPlan,
    candidates: Seq<PressureCandidate>,
    key_types: Seq<Seq<char>>,
    allowed: Seq<Seq<char>>,
    max_values: nat,
    x: int,
    y: int,
)
    requires
        is_plan(plan, candidates, key_types, allowed, max_values),
        one_per_key(candidates),
        0 <= x < y < candidates.len(),
        has_allowed_type(candidates[x], key_types, allowed),
        has_allowed_type(candidates[y], key_types, allowed),
        candidates[x].last_verified_begin == candidates[y].last_verified_begin,
        is_evicted(plan, candidates[y]),
    ensures
        is_evicted(plan, candidates[x]),
{
    let eligible = allowed_candidates(candidates, key_types, allowed);
    let keep = |c: PressureCandidate|
        c.key.index < key_types.len() && allowed.contains(key_types[c.key.index as int]);
    assert(eligible == candidates.filter(keep));
    assert(candidates.no_duplicates());
    let (a, b) = lemma_filter_keeps_order(candidates, keep, x, y);
    let n = plan.stats.selected as int;
    let order = choose|order: Seq<usize>| #[trigger]
        coldest_first(eligible, order) && in_batches(plan.batches@) == picked(
            eligible,
            order.take(n),
        );
    let list = picked(eligible, order.take(n));
    let g = (candidates[y].key, candidates[y].value);
    lemma_in_batches(plan.batches@, g);
    assert(list.contains(g));
    let p = choose|p: int| 0 <= p < list.len() && list[p] == g;
    assert(order.contains(order[p]));
    let e = eligible[order[p] as int];
    assert(eligible.contains(e));
    law_any_allowed_type_is_eligible(candidates, key_types, allowed, e);
    lemma_same_key(candidates, e, candidates[y]);
    assert(order.contains(a as usize));
    let q = choose|q: int| 0 <= q < order.len() && order[q] == a as usize;
    lemma_filter_no_duplicates(candidates, keep);
    assert(order[p] as int == b);
    if p < q {
        assert(colder(eligible, order[p] as int, order[q] as int));
    }
    if q < n {
        assert(list[q] == (candidates[x].key, candidates[x].value));
        assert(list.contains((candidates[x].key, candidates[x].value)));
        lemma_in_batches(plan.batches@, (candidates[x].key, candidates[x].value));
    }
}

} // verus!
