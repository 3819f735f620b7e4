//! Which version is the current one, and which versions transactions are active at.
use vstd::prelude::*;

use crate::versions::VersionNumber;

verus! {

/// Tells apart the times at which a version was active.
#[derive(Debug, Clone, Copy, PartialEq, Eq, Structural, Hash)]
pub struct VersionEpoch {
    pub id: u64,
}

/// A handle to the cache that the transactions at one version share.
#[derive(Debug, Clone, Copy, PartialEq, Eq, Structural, Hash)]
pub struct SharedCache {
    pub id: u64,
}

impl SharedCache {
    /// Whether both handles are to one cache.
    pub fn ptr_eq(&self, other: &SharedCache) -> (r: bool)
        ensures
            r == (self == other),
    {
        self.id == other.id
    }
}

/// A version that transactions are active at: how many, since when, and their cache.
#[derive(Debug, Clone, Copy, PartialEq, Eq, Structural)]
pub struct ActiveVersion {
    pub version: VersionNumber,
    pub refcount: u64,
    pub epoch: VersionEpoch,
    pub cache: SharedCache,
}

/// How many transactions are active in all.
pub open spec fn total_refcount(active: Seq<ActiveVersion>) -> nat
    decreases active.len(),
{
    if active.len() == 0 {
        0
    } else {
        total_refcount(active.drop_last()) + active.last().refcount as nat
    }
}

/// Whether transactions are active at version `v`.
pub open spec fn is_active(active: Seq<ActiveVersion>, v: VersionNumber) -> bool {
    exists|i: int| 0 <= i < active.len() && (#[trigger] active[i]).version == v
}

/// The entry of a version that transactions are active at.
pub open spec fn active_at(active: Seq<ActiveVersion>, v: VersionNumber) -> ActiveVersion {
    active[choose|i: int| 0 <= i < active.len() && (#[trigger] active[i]).version == v]
}

/// Changing one entry changes the total by what it changes that one.
proof fn lemma_total_update(active: Seq<ActiveVersion>, i: int, entry: ActiveVersion)
    requires
        0 <= i < active.len(),
    ensures
        total_refcount(active.update(i, entry)) == total_refcount(active) - active[i].refcount
            + entry.refcount,
        active[i].refcount <= total_refcount(active),
    decreases active.len(),
{
    let after = active.update(i, entry);
    if i == active.len() - 1 {
        assert(after.drop_last() =~= active.drop_last());
    } else {
        lemma_total_update(active.drop_last(), i, entry);
        assert(after.drop_last() =~= active.drop_last().update(i, entry));
    }
}

/// Taking one entry out takes its count from the total.
proof fn lemma_total_remove(active: Seq<ActiveVersion>, i: int)
    requires
        0 <= i < active.len(),
    ensures
        total_refcount(active.remove(i)) == total_refcount(active) - active[i].refcount,
    decreases active.len(),
{
    let after = active.remove(i);
    if i == active.len() - 1 {
        assert(after =~= active.drop_last());
    } else {
        lemma_total_remove(active.drop_last(), i);
        assert(after.drop_last() =~= active.drop_last().remove(i));
        assert(after.last() == active.last());
    }
}

/// The versions of a graph.
#[derive(Debug, PartialEq, Eq)]
pub struct VersionTracker {
    pub current: VersionNumber,
    /// The versions that transactions are active at, in the order in which they became
    /// active.
    pub active: Vec<ActiveVersion>,
    /// How many times a transaction became active so far. Epochs and caches are numbered
    /// by it.
    pub started: u64,
}

/// What a version tracker holds.
#[verifier::ext_equal]
pub struct TrackerView {
    pub current: VersionNumber,
    pub active: Seq<ActiveVersion>,
    pub started: int,
}

impl View for VersionTracker {
    type V = TrackerView;

    open spec fn view(&self) -> TrackerView {
        TrackerView { current: self.current, active: self.active@, started: self.started as int }
    }
}

impl TrackerView {
    /// Whether each version is listed once, is in use, and its epoch and cache are shared
    /// with no other version and have been handed out.
    pub open spec fn valid(self) -> bool {
        &&& forall|i: int, j: int|
            #![trigger self.active[i], self.active[j]]
            0 <= i < j < self.active.len() ==> self.active[i].version != self.active[j].version
                && self.active[i].epoch != self.active[j].epoch && self.active[i].cache
                != self.active[j].cache
        &&& forall|i: int|
            #![trigger self.active[i]]
            0 <= i < self.active.len() ==> self.active[i].refcount >= 1 && self.active[i].epoch.id
                < self.started && self.active[i].cache.id < self.started
        &&& total_refcount(self.active) <= self.started
    }

    /// The tracker once one more transaction is active at version `v`. If others are
    /// already, it joins them; else it gets an epoch and a cache of its own.
    pub open spec fn joined(self, v: VersionNumber, after: TrackerView) -> bool {
        &&& after.current == self.current
        &&& after.started == self.started + 1
        &&& if is_active(self.active, v) {
            exists|i: int|
                0 <= i < self.active.len() && (#[trigger] self.active[i]).version == v
                    && after.active == self.active.update(
                    i,
                    ActiveVersion {
                        refcount: (self.active[i].refcount + 1) as u64,
                        ..self.active[i]
                    },
                )
        } else {
            after.active == self.active.push(
                ActiveVersion {
                    version: v,
                    refcount: 1,
                    epoch: VersionEpoch { id: self.started as u64 },
                    cache: SharedCache { id: self.started as u64 },
                },
            )
        }
    }

    /// The tracker once one transaction at version `v` is done. With the last one, the
    /// version is active no more.
    pub open spec fn left(self, v: VersionNumber, after: TrackerView) -> bool {
        &&& after.current == self.current
        &&& after.started == self.started
        &&& if is_active(self.active, v) {
            exists|i: int|
                0 <= i < self.active.len() && (#[trigger] self.active[i]).version == v
                    && after.active == (if self.active[i].refcount == 1 {
                    self.active.remove(i)
                } else {
                    self.active.update(
                        i,
                        ActiveVersion {
                            refcount: (self.active[i].refcount - 1) as u64,
                            ..self.active[i]
                        },
                    )
                })
        } else {
            after.active == self.active
        }
    }

    /// Whether what was begun at version `v` in the given epoch is of no use any more.
    pub open spec fn cancelled(self, v: VersionNumber, epoch: VersionEpoch) -> bool {
        !(is_active(self.active, v) && active_at(self.active, v).epoch == epoch)
    }
}

/// The entry of an active version is the one that is listed for it.
pub proof fn lemma_active_at(t: TrackerView, i: int)
    requires
        t.valid(),
        0 <= i < t.active.len(),
    ensures
        is_active(t.active, t.active[i].version),
        active_at(t.active, t.active[i].version) == t.active[i],
{
    let v = t.active[i].version;
    assert(is_active(t.active, v));
    let j = choose|j: int| 0 <= j < t.active.len() && (#[trigger] t.active[j]).version == v;
    if j < i {
        assert(t.active[j].version != t.active[i].version);
    }
    if i < j {
        assert(t.active[i].version != t.active[j].version);
    }
}

impl VersionTracker {
    /// Whether the tracker is in order.
    pub open spec fn wf(self) -> bool {
        self@.valid()
    }

    /// A tracker at the first version, with no transaction.
    pub fn new() -> (r: VersionTracker)
        ensures
            r.wf(),
            r@ == (TrackerView {
                current: VersionNumber { number: 1 },
                active: Seq::empty(),
                started: 0,
            }),
    {
        VersionTracker { current: VersionNumber::first(), active: Vec::new(), started: 0 }
    }

    /// The current version.
    pub fn current(&self) -> (r: VersionNumber)
        ensures
            r == self@.current,
    {
        self.current
    }

    /// Where the entry of a version stands.
    fn position(&self, v: VersionNumber) -> (r: Option<usize>)
        ensures
            match r {
                Some(i) => i < self@.active.len() && self@.active[i as int].version == v,
                None => !is_active(self@.active, v),
            },
    {
        let mut i: usize = 0;
        while i < self.active.len()
            invariant
                i <= self.active@.len(),
                forall|j: int| 0 <= j < i ==> (#[trigger] self.active@[j]).version != v,
            decreases self.active@.len() - i,
        {
            if self.active[i].version.number == v.number {
                return Some(i);
            }
            i += 1;
        }
        None
    }

    /// Makes a transaction active at a version, and gives it the epoch and the cache of
    /// that version.
    pub fn at(&mut self, v: VersionNumber) -> (r: (VersionEpoch, SharedCache))
        requires
            old(self).wf(),
            old(self).started < u64::MAX,
        ensures
            final(self).wf(),
            old(self)@.joined(v, final(self)@),
            is_active(final(self)@.active, v),
            r == (active_at(final(self)@.active, v).epoch, active_at(
                final(self)@.active,
                v,
            ).cache),
    {
        let ghost before = self@;
        match self.position(v) {
            Some(i) => {
                let was: ActiveVersion = self.active[i];
                proof {
                    lemma_total_update(before.active, i as int, was);
                }
                let entry: ActiveVersion = ActiveVersion {
                    version: was.version,
                    refcount: was.refcount + 1,
                    epoch: was.epoch,
                    cache: was.cache,
                };
                self.active.set(i, entry);
                self.started = self.started + 1;
                proof {
                    lemma_total_update(before.active, i as int, entry);
                    assert(self@.active == before.active.update(i as int, entry));
                    assert(before.active[i as int].version == v);
                    assert(self@.valid());
                    lemma_active_at(self@, i as int);
                }
                (was.epoch, was.cache)
            },
            None => {
                let id: u64 = self.started;
                let entry: ActiveVersion = ActiveVersion {
                    version: v,
                    refcount: 1,
                    epoch: VersionEpoch { id },
                    cache: SharedCache { id },
                };
                self.active.push(entry);
                self.started = self.started + 1;
                proof {
                    assert(self@.active.drop_last() =~= before.active);
                    assert forall|i: int, j: int|
                        #![trigger self@.active[i], self@.active[j]]
                        0 <= i < j < self@.active.len() implies self@.active[i].version
                        != self@.active[j].version && self@.active[i].epoch != self@.active[j].epoch
                        && self@.active[i].cache != self@.active[j].cache by {
                        assert(self@.active[i] == before.active[i]);
                        if j < before.active.len() {
                            assert(self@.active[j] == before.active[j]);
                        }
                    }
                    assert(self@.valid());
                    lemma_active_at(self@, before.active.len() as int);
                }
                (entry.epoch, entry.cache)
            },
        }
    }

    /// Ends a transaction at a version. With the last one the version's cache is given
    /// back, to be wound up.
    pub fn drop_at_version(&mut self, v: VersionNumber) -> (r: Option<SharedCache>)
        requires
            old(self).wf(),
        ensures
            final(self).wf(),
            old(self)@.left(v, final(self)@),
            r == (if is_active(old(self)@.active, v) && active_at(old(self)@.active, v).refcount
                == 1 {
                Some(active_at(old(self)@.active, v).cache)
            } else {
                None
            }),
    {
        let ghost before = self@;
        match self.position(v) {
            Some(i) => {
                let was: ActiveVersion = self.active[i];
                proof {
                    lemma_active_at(before, i as int);
                    assert(before.active[i as int].version == v);
                }
                if was.refcount == 1 {
                    proof {
                        lemma_total_remove(before.active, i as int);
                    }
                    let _ = self.active.remove(i);
                    proof {
                        assert(self@.active == before.active.remove(i as int));
                        assert forall|a: int, b: int|
                            #![trigger self@.active[a], self@.active[b]]
                            0 <= a < b < self@.active.len() implies self@.active[a].version
                            != self@.active[b].version && self@.active[a].epoch
                            != self@.active[b].epoch && self@.active[a].cache
                            != self@.active[b].cache by {
                            let c = if a < i {
                                a
                            } else {
                                a + 1
                            };
                            let d = if b < i {
                                b
                            } else {
                                b + 1
                            };
                            assert(self@.active[a] == before.active[c]);
                            assert(self@.active[b] == before.active[d]);
                        }
                    }
                    Some(was.cache)
                } else {
                    let entry: ActiveVersion = ActiveVersion {
                        version: was.version,
                        refcount: was.refcount - 1,
                        epoch: was.epoch,
                        cache: was.cache,
                    };
                    self.active.set(i, entry);
                    proof {
                        lemma_total_update(before.active, i as int, entry);
                        assert(self@.active == before.active.update(i as int, entry));
                    }
                    None
                }
            },
            None => None,
        }
    }

    /// Whether what was begun at a version in the given epoch is of no use any more: the
    /// version is not active, or has become active anew since.
    pub fn is_cancelled(&self, v: VersionNumber, epoch: VersionEpoch) -> (r: bool)
        requires
            self.wf(),
        ensures
            r == self@.cancelled(v, epoch),
    {
        match self.position(v) {
            Some(i) => {
                proof {
                    lemma_active_at(self@, i as int);
                }
                self.active[i].epoch.id != epoch.id
            },
            None => true,
        }
    }

    /// The version that the next change is made at.
    pub fn next_version(&self) -> (r: VersionNumber)
        requires
            self.current.number < u64::MAX,
        ensures
            r.number == self@.current.number + 1,
    {
        VersionNumber { number: self.current.number + 1 }
    }

    /// Makes another version the current one.
    pub fn set_current(&mut self, v: VersionNumber)
        ensures
            final(self)@ == (TrackerView { current: v, ..old(self)@ }),
    {
        self.current = v;
    }

    /// Ends all transactions.
    pub fn clear(&mut self)
        requires
            old(self).wf(),
        ensures
            final(self).wf(),
            final(self)@ == (TrackerView { active: Seq::empty(), ..old(self)@ }),
    {
        self.active = Vec::new();
        assert(self@ =~= TrackerView { active: Seq::empty(), ..old(self)@ });
    }

    /// How many transactions are active in all.
    pub fn active_transactions(&self) -> (r: u64)
        requires
            self.wf(),
        ensures
            r == total_refcount(self@.active),
    {
        let mut total: u64 = 0;
        let mut i: usize = 0;
        while i < self.active.len()
            invariant
                self.wf(),
                i <= self.active@.len(),
                total == total_refcount(self.active@.take(i as int)),
            decreases self.active@.len() - i,
        {
            proof {
                assert(self.active@.take(i + 1).drop_last() =~= self.active@.take(i as int));
                lemma_total_prefix(self.active@, i + 1);
            }
            total = total + self.active[i].refcount;
            i += 1;
        }
        assert(self.active@.take(self.active@.len() as int) =~= self.active@);
        total
    }
}

/// The first entries count no more transactions than all do.
proof fn lemma_total_prefix(active: Seq<ActiveVersion>, n: int)
    requires
        0 <= n <= active.len(),
    ensures
        total_refcount(active.take(n)) <= total_refcount(active),
    decreases active.len(),
{
    if n < active.len() {
        lemma_total_prefix(active.drop_last(), n);
        assert(active.drop_last().take(n) =~= active.take(n));
    } else {
        assert(active.take(n) =~= active);
    }
}

/// Two transactions that are active at one version at once have one epoch and one cache,
/// however many others come and go in between, as long as one stays.
pub proof fn law_active_transactions_share_a_cache(
    before: TrackerView,
    after: TrackerView,
    v: VersionNumber,
    u: VersionNumber,
)
    requires
        before.valid(),
        after.valid(),
        is_active(before.active, v),
        is_active(after.active, v),
        before.joined(u, after) || before.left(u, after),
    ensures
        active_at(after.active, v).epoch == active_at(before.active, v).epoch,
        active_at(after.active, v).cache == active_at(before.active, v).cache,
{
    let i = choose|i: int| 0 <= i < before.active.len() && (#[trigger] before.active[i]).version == v;
    lemma_active_at(before, i);
    let j = choose|j: int| 0 <= j < after.active.len() && (#[trigger] after.active[j]).version == v;
    lemma_active_at(after, j);
    if before.joined(u, after) && !is_active(before.active, u) {
        assert(after.active[i] == before.active[i]);
        lemma_active_at(after, i);
    } else if is_active(before.active, u) {
        if before.joined(u, after) {
            assert(after.active[i].version == v);
            lemma_active_at(after, i);
        } else {
            let k = choose|k: int|
                0 <= k < before.active.len() && (#[trigger] before.active[k]).version == u
                    && after.active == (if before.active[k].refcount == 1 {
                    before.active.remove(k)
                } else {
                    before.active.update(
                        k,
                        ActiveVersion {
                            refcount: (before.active[k].refcount - 1) as u64,
                            ..before.active[k]
                        },
                    )
                });
            if before.active[k].refcount == 1 {
                if k != i {
                    let m = if i < k {
                        i
                    } else {
                        i - 1
                    };
                    assert(after.active[m] == before.active[i]);
                    lemma_active_at(after, m);
                } else {
                    let o = if j < k {
                        j
                    } else {
                        j + 1
                    };
                    assert(after.active[j] == before.active[o]);
                    if o < i {
                        assert(before.active[o].version != before.active[i].version);
                    } else {
                        assert(before.active[i].version != before.active[o].version);
                    }
                }
            } else {
                assert(after.active[i].version == v);
                lemma_active_at(after, i);
            }
        }
    }
}

/// A version that becomes active anew gets an epoch and a cache that nobody had before, so
/// what was begun in an earlier epoch is cancelled.
pub proof fn law_a_new_epoch_cancels_earlier_ones(
    before: TrackerView,
    after: TrackerView,
    v: VersionNumber,
    epoch: VersionEpoch,
)
    requires
        before.valid(),
        after.valid(),
        0 <= before.started < u64::MAX,
        !is_active(before.active, v),
        before.joined(v, after),
        epoch.id < before.started,
    ensures
        active_at(after.active, v).epoch != epoch,
        active_at(after.active, v).cache.id >= before.started,
        after.cancelled(v, epoch),
{
    lemma_active_at(after, before.active.len() as int);
    assert(after.active[before.active.len() as int].version == v);
}

/// A transaction that begins is one more, and one that ends at an active version is one less. The
/// current version stays.
pub proof fn law_transactions_are_counted(before: TrackerView, after: TrackerView, v: VersionNumber)
    requires
        before.valid(),
        before.started < u64::MAX,
    ensures
        before.joined(v, after) ==> total_refcount(after.active) == total_refcount(before.active)
            + 1,
        before.left(v, after) && is_active(before.active, v) ==> total_refcount(after.active)
            == total_refcount(before.active) - 1,
        before.left(v, after) && !is_active(before.active, v) ==> after.active == before.active,
        before.joined(v, after) || before.left(v, after) ==> after.current == before.current,
{
    if before.joined(v, after) {
        if is_active(before.active, v) {
            let i = choose|i: int|
                0 <= i < before.active.len() && (#[trigger] before.active[i]).version == v
                    && after.active == before.active.update(
                    i,
                    ActiveVersion {
                        refcount: (before.active[i].refcount + 1) as u64,
                        ..before.active[i]
                    },
                );
            let entry = ActiveVersion {
                refcount: (before.active[i].refcount + 1) as u64,
                ..before.active[i]
            };
            lemma_total_update(before.active, i, entry);
        } else {
            assert(after.active.drop_last() =~= before.active);
        }
    }
    if before.left(v, after) && is_active(before.active, v) {
        let i = choose|i: int|
            0 <= i < before.active.len() && (#[trigger] before.active[i]).version == v
                && after.active == (if before.active[i].refcount == 1 {
                before.active.remove(i)
            } else {
                before.active.update(
                    i,
                    ActiveVersion {
                        refcount: (before.active[i].refcount - 1) as u64,
                        ..before.active[i]
                    },
                )
            });
        if before.active[i].refcount == 1 {
            lemma_total_remove(before.active, i);
        } else {
            let entry = ActiveVersion {
                refcount: (before.active[i].refcount - 1) as u64,
                ..before.active[i]
            };
            lemma_total_update(before.active, i, entry);
        }
    }
}

/// A version is active from its first transaction until its last one ends, and every other version
/// is as it was. What was begun in the epoch of an active version is not cancelled.
pub proof fn law_a_version_is_active_until_its_last_transaction_ends(
    before: TrackerView,
    after: TrackerView,
    v: VersionNumber,
    u: VersionNumber,
)
    requires
        before.valid(),
        after.valid(),
        before.started < u64::MAX,
    ensures
        before.joined(v, after) ==> is_active(after.active, v) && !after.cancelled(
            v,
            active_at(after.active, v).epoch,
        ),
        before.joined(v, after) && is_active(before.active, v) ==> active_at(
            after.active,
            v,
        ).refcount == active_at(before.active, v).refcount + 1,
        before.joined(v, after) && !is_active(before.active, v) ==> active_at(
            after.active,
            v,
        ).refcount == 1,
        before.left(v, after) ==> (is_active(after.active, v) <==> is_active(before.active, v)
            && active_at(before.active, v).refcount > 1),
        before.left(v, after) && is_active(after.active, v) ==> active_at(
            after.active,
            v,
        ).refcount == active_at(before.active, v).refcount - 1,
        u != v && (before.joined(v, after) || before.left(v, after)) ==> (is_active(after.active, u)
            <==> is_active(before.active, u)),
{
    if before.joined(v, after) {
        if is_active(before.active, v) {
            let i = choose|i: int|
                0 <= i < before.active.len() && (#[trigger] before.active[i]).version == v
                    && after.active == before.active.update(
                    i,
                    ActiveVersion {
                        refcount: (before.active[i].refcount + 1) as u64,
                        ..before.active[i]
                    },
                );
            lemma_active_at(before, i);
            assert(after.active[i].version == v);
            lemma_active_at(after, i);
            lemma_total_update(before.active, i, before.active[i]);
        } else {
            assert(after.active[before.active.len() as int].version == v);
            lemma_active_at(after, before.active.len() as int);
        }
        if is_active(before.active, u) {
            let j = choose|j: int|
                0 <= j < before.active.len() && (#[trigger] before.active[j]).version == u;
            assert(after.active[j].version == u);
        }
        if is_active(after.active, u) {
            let j = choose|j: int|
                0 <= j < after.active.len() && (#[trigger] after.active[j]).version == u;
            if u != v {
                assert(before.active[j].version == u);
            }
        }
    }
    if before.left(v, after) {
        if is_active(before.active, v) {
            let i = choose|i: int|
                0 <= i < before.active.len() && (#[trigger] before.active[i]).version == v
                    && after.active == (if before.active[i].refcount == 1 {
                    before.active.remove(i)
                } else {
                    before.active.update(
                        i,
                        ActiveVersion {
                            refcount: (before.active[i].refcount - 1) as u64,
                            ..before.active[i]
                        },
                    )
                });
            lemma_active_at(before, i);
            assert(before.active[i].refcount >= 1);
            if before.active[i].refcount == 1 {
                if is_active(after.active, v) {
                    let j = choose|j: int|
                        0 <= j < after.active.len() && (#[trigger] after.active[j]).version == v;
                    let o = if j < i {
                        j
                    } else {
                        j + 1
                    };
                    assert(after.active[j] == before.active[o]);
                    if o < i {
                        assert(before.active[o].version != before.active[i].version);
                    } else {
                        assert(before.active[i].version != before.active[o].version);
                    }
                }
                if is_active(before.active, u) && u != v {
                    let j = choose|j: int|
                        0 <= j < before.active.len() && (#[trigger] before.active[j]).version == u;
                    let o = if j < i {
                        j
                    } else {
                        j - 1
                    };
                    assert(after.active[o] == before.active[j]);
                }
                if is_active(after.active, u) {
                    let j = choose|j: int|
                        0 <= j < after.active.len() && (#[trigger] after.active[j]).version == u;
                    let o = if j < i {
                        j
                    } else {
                        j + 1
                    };
                    assert(after.active[j] == before.active[o]);
                }
            } else {
                assert(after.active[i].version == v);
                lemma_active_at(after, i);
                if is_active(before.active, u) {
                    let j = choose|j: int|
                        0 <= j < before.active.len() && (#[trigger] before.active[j]).version == u;
                    assert(after.active[j].version == u);
                }
                if is_active(after.active, u) {
                    let j = choose|j: int|
                        0 <= j < after.active.len() && (#[trigger] after.active[j]).version == u;
                    assert(before.active[j].version == u);
                }
            }
        }
    }
}

} // verus!
