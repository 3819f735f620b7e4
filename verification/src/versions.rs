//! Version numbers and sets of versions.
//!
//! A set of versions is kept as a list of ranges in canonical form: none is
//! empty, they ascend, and between two of them at least one version is missing.
//! So one set has one list.
use vstd::prelude::*;

verus! {

/// A point in the linear history of the graph.
#[derive(Debug, Clone, Copy, PartialEq, Eq, Structural, PartialOrd, Ord, Hash)]
pub struct VersionNumber {
    pub number: u64,
}

impl VersionNumber {
    /// The version that a graph starts at.
    pub fn first() -> (v: VersionNumber)
        ensures
            v.number == 1,
    {
        VersionNumber { number: 1 }
    }

    /// The number `value` as a version.
    pub fn new(value: u64) -> (v: VersionNumber)
        ensures
            v.number == value,
    {
        VersionNumber { number: value }
    }

    /// The number behind this version.
    pub fn value(&self) -> (n: u64)
        ensures
            n == self.number,
    {
        self.number
    }
}

/// The versions from `begin` on, up to but not including `end`; without an
/// `end`, all from `begin` on.
#[derive(Debug, Clone, Copy, PartialEq, Eq, Structural)]
pub struct VersionRange {
    pub begin: VersionNumber,
    pub end: Option<VersionNumber>,
}

impl VersionRange {
    /// Whether version `v` is in the range.
    pub open spec fn has(self, v: int) -> bool {
        &&& self.begin.number <= v
        &&& match self.end {
            Some(end) => v < end.number,
            None => true,
        }
    }

    /// Whether the range holds a version at all.
    pub open spec fn nonempty(self) -> bool {
        match self.end {
            Some(end) => self.begin.number < end.number,
            None => true,
        }
    }

    /// Whether the range ends, and leaves out at least one version before `v`.
    pub open spec fn ends_before(self, v: VersionNumber) -> bool {
        match self.end {
            Some(end) => end.number < v.number,
            None => false,
        }
    }

    /// The versions from `begin` up to but not including `end`.
    pub fn bounded(begin: VersionNumber, end: VersionNumber) -> (r: VersionRange)
        ensures
            r.begin == begin,
            r.end == Some(end),
    {
        VersionRange { begin, end: Some(end) }
    }

    /// All versions from `begin` on.
    pub fn begins_with(begin: VersionNumber) -> (r: VersionRange)
        ensures
            r.begin == begin,
            r.end is None,
    {
        VersionRange { begin, end: None }
    }

    /// Whether version `v` is in the range.
    pub fn contains(&self, v: VersionNumber) -> (r: bool)
        ensures
            r == self.has(v.number as int),
    {
        self.begin.number <= v.number && match self.end {
            Some(end) => v.number < end.number,
            None => true,
        }
    }

    /// The versions that are in both ranges, if there are any.
    pub fn intersect(&self, other: &VersionRange) -> (r: Option<VersionRange>)
        ensures
            match r {
                Some(both) => both.nonempty() && (forall|v: int| #[trigger]
                    both.has(v) <==> self.has(v) && other.has(v)) && (both.begin == self.begin
                    || both.begin == other.begin) && (both.end == self.end || both.end
                    == other.end),
                None => forall|v: int| !(#[trigger] self.has(v) && other.has(v)),
            },
    {
        let begin: VersionNumber = if self.begin.number < other.begin.number {
            other.begin
        } else {
            self.begin
        };
        let end: Option<VersionNumber> = match (self.end, other.end) {
            (Some(a), Some(b)) => if a.number < b.number {
                Some(a)
            } else {
                Some(b)
            },
            (Some(a), None) => Some(a),
            (None, b) => b,
        };
        let both: VersionRange = VersionRange { begin, end };
        match end {
            Some(e) => if begin.number < e.number {
                Some(both)
            } else {
                None
            },
            None => {
                Some(both)
            },
        }
    }

    /// The range from where the first of the two begins to where the last ends.
    pub fn hull(&self, other: &VersionRange) -> (r: VersionRange)
        requires
            self.nonempty(),
            other.nonempty(),
            !self.ends_before(other.begin),
            !other.ends_before(self.begin),
        ensures
            r.nonempty(),
            r.begin == self.begin || r.begin == other.begin,
            r.begin.number <= self.begin.number,
            r.begin.number <= other.begin.number,
            forall|v: int| #[trigger] r.has(v) <==> self.has(v) || other.has(v),
    {
        let begin: VersionNumber = if self.begin.number < other.begin.number {
            self.begin
        } else {
            other.begin
        };
        let end: Option<VersionNumber> = match (self.end, other.end) {
            (Some(a), Some(b)) => if a.number < b.number {
                Some(b)
            } else {
                Some(a)
            },
            _ => None,
        };
        VersionRange { begin, end }
    }

    /// The two ends of the range.
    pub fn parts_for_persist(&self) -> (r: (VersionNumber, Option<VersionNumber>))
        ensures
            r == (self.begin, self.end),
    {
        (self.begin, self.end)
    }

    /// The range with the given ends.
    pub fn from_persisted_parts(begin: VersionNumber, end: Option<VersionNumber>) -> (r:
        VersionRange)
        ensures
            r == (VersionRange { begin, end }),
    {
        VersionRange { begin, end }
    }
}

/// Whether version `v` is in one of the ranges `s`.
pub open spec fn covers(s: Seq<VersionRange>, v: int) -> bool {
    exists|i: int| 0 <= i < s.len() && #[trigger] s[i].has(v)
}

/// Whether the ranges are in canonical form.
pub open spec fn canonical(s: Seq<VersionRange>) -> bool {
    &&& forall|i: int| #![trigger s[i]] 0 <= i < s.len() ==> s[i].nonempty()
    &&& forall|i: int, j: int|
        #![trigger s[i], s[j]]
        0 <= i < j < s.len() ==> s[i].ends_before(s[j].begin)
}

/// Whether version `b` is in the set and the one before it is not.
pub open spec fn begins_run(s: Set<int>, b: int) -> bool {
    s.contains(b) && !s.contains(b - 1)
}

/// A set of versions.
#[derive(Debug, PartialEq, Eq)]
pub struct VersionRanges {
    pub ranges: Vec<VersionRange>,
}

impl View for VersionRanges {
    type V = Seq<VersionRange>;

    open spec fn view(&self) -> Seq<VersionRange> {
        self.ranges@
    }
}

/// One more range at the end covers its versions as well.
pub proof fn lemma_covers_push(s: Seq<VersionRange>, r: VersionRange, v: int)
    ensures
        covers(s.push(r), v) <==> covers(s, v) || r.has(v),
{
    let t = s.push(r);
    if covers(s, v) {
        let i = choose|i: int| 0 <= i < s.len() && #[trigger] s[i].has(v);
        assert(t[i].has(v));
    }
    if r.has(v) {
        assert(t[s.len() as int].has(v));
    }
    if covers(t, v) {
        let i = choose|i: int| 0 <= i < t.len() && #[trigger] t[i].has(v);
        if i < s.len() {
            assert(s[i].has(v));
        }
    }
}

/// The first `i + 1` ranges cover what the first `i` and the next one do.
proof fn lemma_covers_take(s: Seq<VersionRange>, i: int, v: int)
    requires
        0 <= i < s.len(),
    ensures
        covers(s.take(i + 1), v) <==> covers(s.take(i), v) || s[i].has(v),
{
    assert(s.take(i + 1) =~= s.take(i).push(s[i]));
    lemma_covers_push(s.take(i), s[i], v);
}

impl VersionRanges {
    /// Whether the list is in canonical form.
    pub open spec fn wf(self) -> bool {
        canonical(self.ranges@)
    }

    /// Whether version `v` is in the set.
    pub open spec fn has(self, v: int) -> bool {
        covers(self.ranges@, v)
    }

    /// The versions of the set.
    pub open spec fn versions(self) -> Set<int> {
        Set::new(|v: int| covers(self.ranges@, v))
    }

    /// The empty set.
    pub fn new() -> (r: VersionRanges)
        ensures
            r.wf(),
            r@ == Seq::<VersionRange>::empty(),
            forall|v: int| !#[trigger] r.has(v),
    {
        VersionRanges { ranges: Vec::new() }
    }

    /// A copy.
    pub fn duplicate(&self) -> (r: VersionRanges)
        ensures
            r@ == self@,
    {
        let mut out: Vec<VersionRange> = Vec::new();
        let mut i: usize = 0;
        while i < self.ranges.len()
            invariant
                i <= self.ranges@.len(),
                out@ == self.ranges@.take(i as int),
            decreases self.ranges@.len() - i,
        {
            out.push(self.ranges[i]);
            assert(self.ranges@.take(i as int).push(self.ranges@[i as int]) =~= self.ranges@.take(
                i + 1,
            ));
            i += 1;
        }
        assert(self.ranges@.take(self.ranges@.len() as int) =~= self.ranges@);
        VersionRanges { ranges: out }
    }

    /// Whether the list is in canonical form.
    pub fn is_canonical(&self) -> (r: bool)
        ensures
            r == self.wf(),
    {
        let ghost all = self.ranges@;
        let mut i: usize = 0;
        while i < self.ranges.len()
            invariant
                all == self.ranges@,
                i <= all.len(),
                canonical(all.take(i as int)),
            decreases all.len() - i,
        {
            let next: VersionRange = self.ranges[i];
            let filled: bool = match next.end {
                Some(e) => next.begin.number < e.number,
                None => true,
            };
            let apart: bool = if i == 0 {
                true
            } else {
                match self.ranges[i - 1].end {
                    Some(e) => e.number < next.begin.number,
                    None => false,
                }
            };
            if !filled || !apart {
                proof {
                    if i > 0 && !apart {
                        assert(!all[i - 1].ends_before(all[i as int].begin));
                    }
                    assert(!canonical(all));
                }
                return false;
            }
            proof {
                let front = all.take(i as int);
                let longer = all.take(i + 1);
                assert forall|a: int, b: int|
                    #![trigger longer[a], longer[b]]
                    0 <= a < b < longer.len() implies longer[a].ends_before(longer[b].begin) by {
                    if b < i {
                        assert(front[a].ends_before(front[b].begin));
                    } else if a < i - 1 {
                        assert(front[a].ends_before(front[i - 1].begin));
                        assert(front[i - 1].nonempty());
                    }
                }
                assert forall|a: int| #![trigger longer[a]] 0 <= a < longer.len() implies longer[a].nonempty() by {
                    if a < i {
                        assert(front[a].nonempty());
                    }
                }
            }
            i += 1;
        }
        assert(all.take(all.len() as int) =~= all);
        true
    }

    /// Whether version `v` is in the set.
    pub fn contains(&self, v: VersionNumber) -> (r: bool)
        ensures
            r == self.has(v.number as int),
    {
        let mut i: usize = 0;
        while i < self.ranges.len()
            invariant
                i <= self.ranges@.len(),
                forall|j: int| 0 <= j < i ==> !#[trigger] self.ranges@[j].has(v.number as int),
            decreases self.ranges@.len() - i,
        {
            if self.ranges[i].contains(v) {
                assert(self.ranges@[i as int].has(v.number as int));
                return true;
            }
            i += 1;
        }
        false
    }

    /// Adds the versions of `range`.
    pub fn insert(&mut self, range: VersionRange)
        requires
            old(self).wf(),
            range.nonempty(),
        ensures
            final(self).wf(),
            forall|v: int| #[trigger] final(self).has(v) <==> old(self).has(v) || range.has(v),
    {
        let mut out: Vec<VersionRange> = Vec::new();
        let mut current: VersionRange = range;
        let mut placed: bool = false;
        let mut i: usize = 0;
        let ghost all = self.ranges@;
        while i < self.ranges.len()
            invariant
                i <= self.ranges@.len(),
                all == self.ranges@,
                canonical(all),
                canonical(out@),
                current.nonempty(),
                !placed ==> forall|j: int|
                    0 <= j < out@.len() ==> #[trigger] out@[j].ends_before(current.begin),
                placed ==> out@.len() > 0,
                forall|j: int, k: int|
                    #![trigger out@[j], all[k]]
                    0 <= j < out@.len() && i <= k < all.len() ==> out@[j].ends_before(all[k].begin),
                forall|v: int|
                    #![trigger covers(out@, v)]
                    #![trigger range.has(v)]
                    (covers(out@, v) || (!placed && current.has(v))) <==> (covers(
                        all.take(i as int),
                        v,
                    ) || range.has(v)),
            decreases self.ranges@.len() - i,
        {
            let next: VersionRange = self.ranges[i];
            let ghost before = out@;
            let ghost was = current;
            let ghost was_placed = placed;
            let next_first: bool = match next.end {
                Some(e) => e.number < current.begin.number,
                None => false,
            };
            let current_first: bool = match current.end {
                Some(e) => e.number < next.begin.number,
                None => false,
            };
            if placed || next_first {
                out.push(next);
            } else if current_first {
                out.push(current);
                out.push(next);
                placed = true;
            } else {
                current = next.hull(&current);
            }
            assert forall|v: int|
                #![trigger covers(out@, v)]
                #![trigger range.has(v)]
                (covers(out@, v) || (!placed && current.has(v))) <==> (covers(
                    all.take(i + 1),
                    v,
                ) || range.has(v)) by {
                lemma_covers_take(all, i as int, v);
                assert(covers(before, v) || (!was_placed && was.has(v)) <==> covers(
                    all.take(i as int),
                    v,
                ) || range.has(v));
                lemma_covers_push(before, next, v);
                lemma_covers_push(before, was, v);
                lemma_covers_push(before.push(was), next, v);
            }
            i += 1;
        }
        let ghost before = out@;
        assert(all.take(all.len() as int) =~= all);
        if !placed {
            out.push(current);
        }
        assert forall|v: int| #[trigger] covers(out@, v) <==> covers(all, v) || range.has(v) by {
            lemma_covers_push(before, current, v);
            assert(covers(before, v) || (!placed && current.has(v)) <==> covers(
                all.take(all.len() as int),
                v,
            ) || range.has(v));
        }
        self.ranges = out;
        assert forall|v: int| #[trigger] self.has(v) <==> old(self).has(v) || range.has(v) by {
            assert(covers(out@, v) <==> covers(all, v) || range.has(v));
        }
    }

    /// Adds the versions of `other`.
    pub fn union(&mut self, other: &VersionRanges)
        requires
            old(self).wf(),
            other.wf(),
        ensures
            final(self).wf(),
            forall|v: int| #[trigger] final(self).has(v) <==> old(self).has(v) || other.has(v),
    {
        let mut i: usize = 0;
        while i < other.ranges.len()
            invariant
                i <= other.ranges@.len(),
                other.wf(),
                self.wf(),
                forall|v: int| #[trigger]
                    self.has(v) <==> old(self).has(v) || covers(other.ranges@.take(i as int), v),
            decreases other.ranges@.len() - i,
        {
            let ghost before = *self;
            self.insert(other.ranges[i]);
            assert forall|v: int| #[trigger]
                self.has(v) <==> old(self).has(v) || covers(other.ranges@.take(i + 1), v) by {
                lemma_covers_take(other.ranges@, i as int, v);
                assert(before.has(v) <==> old(self).has(v) || covers(
                    other.ranges@.take(i as int),
                    v,
                ));
            }
            i += 1;
        }
        assert(other.ranges@.take(other.ranges@.len() as int) =~= other.ranges@);
    }

    /// The versions of the set that are in `range`.
    pub fn intersect_range(&self, range: &VersionRange) -> (r: VersionRanges)
        requires
            self.wf(),
        ensures
            r.wf(),
            forall|v: int| #[trigger] r.has(v) <==> self.has(v) && range.has(v),
            forall|j: int|
                0 <= j < r@.len() ==> range.begin.number <= (#[trigger] r@[j]).begin.number && (
                range.end matches Some(e) ==> r@[j].end matches Some(f) && f.number <= e.number),
    {
        let mut out: Vec<VersionRange> = Vec::new();
        let mut i: usize = 0;
        let ghost all = self.ranges@;
        while i < self.ranges.len()
            invariant
                i <= self.ranges@.len(),
                all == self.ranges@,
                canonical(all),
                canonical(out@),
                forall|j: int, k: int|
                    #![trigger out@[j], all[k]]
                    0 <= j < out@.len() && i <= k < all.len() ==> out@[j].ends_before(all[k].begin),
                forall|j: int|
                    0 <= j < out@.len() ==> range.begin.number <= (
                    #[trigger] out@[j]).begin.number && (range.end matches Some(e)
                        ==> out@[j].end matches Some(f) && f.number <= e.number),
                forall|v: int| #[trigger]
                    covers(out@, v) <==> covers(all.take(i as int), v) && range.has(v),
            decreases self.ranges@.len() - i,
        {
            let ghost before = out@;
            let next: VersionRange = self.ranges[i];
            let both: Option<VersionRange> = next.intersect(range);
            match both {
                Some(part) => {
                    assert(part.begin.number >= next.begin.number) by {
                        assert(part.has(part.begin.number as int));
                        assert(next.has(part.begin.number as int));
                    }
                    assert(range.begin.number <= part.begin.number) by {
                        assert(part.has(part.begin.number as int));
                        assert(range.has(part.begin.number as int));
                    }
                    if let Some(e) = part.end {
                        assert(part.has(e.number - 1));
                    }
                    if let Some(e) = next.end {
                        assert(part.end is Some) by {
                            if part.end is None {
                                let far = e.number as int + part.begin.number as int;
                                assert(part.has(far));
                                assert(next.has(far));
                            }
                        }
                        assert(next.has(part.end->0.number - 1));
                    }
                    if let Some(e) = range.end {
                        assert(part.end is Some) by {
                            if part.end is None {
                                let far = e.number as int + part.begin.number as int;
                                assert(part.has(far));
                                assert(range.has(far));
                            }
                        }
                        assert(range.has(part.end->0.number - 1));
                    }
                    out.push(part);
                },
                None => {},
            }
            assert forall|v: int| #[trigger]
                covers(out@, v) <==> covers(all.take(i + 1), v) && range.has(v) by {
                lemma_covers_take(all, i as int, v);
                assert(covers(before, v) <==> covers(all.take(i as int), v) && range.has(v));
                match both {
                    Some(part) => {
                        lemma_covers_push(before, part, v);
                        assert(part.has(v) <==> next.has(v) && range.has(v));
                    },
                    None => {
                        assert(!(next.has(v) && range.has(v)));
                    },
                }
            }
            i += 1;
        }
        assert(all.take(all.len() as int) =~= all);
        let r: VersionRanges = VersionRanges { ranges: out };
        assert forall|v: int| #[trigger] r.has(v) <==> self.has(v) && range.has(v) by {
            assert(covers(out@, v) <==> covers(all.take(all.len() as int), v) && range.has(v));
        }
        r
    }

    /// The versions that are in both sets.
    pub fn intersect(&self, other: &VersionRanges) -> (r: VersionRanges)
        requires
            self.wf(),
            other.wf(),
        ensures
            r.wf(),
            forall|v: int| #[trigger] r.has(v) <==> self.has(v) && other.has(v),
    {
        let mut out: Vec<VersionRange> = Vec::new();
        let mut i: usize = 0;
        let ghost all = other.ranges@;
        while i < other.ranges.len()
            invariant
                i <= other.ranges@.len(),
                all == other.ranges@,
                self.wf(),
                canonical(all),
                canonical(out@),
                forall|j: int, k: int|
                    #![trigger out@[j], all[k]]
                    0 <= j < out@.len() && i <= k < all.len() ==> out@[j].ends_before(all[k].begin),
                forall|v: int| #[trigger]
                    covers(out@, v) <==> self.has(v) && covers(all.take(i as int), v),
            decreases other.ranges@.len() - i,
        {
            let ghost before = out@;
            let part: VersionRanges = self.intersect_range(&other.ranges[i]);
            let mut k: usize = 0;
            while k < part.ranges.len()
                invariant
                    i < other.ranges@.len(),
                    all == other.ranges@,
                    canonical(all),
                    k <= part.ranges@.len(),
                    part.wf(),
                    canonical(out@),
                    forall|j: int|
                        0 <= j < part@.len() ==> all[i as int].begin.number <= (
                        #[trigger] part@[j]).begin.number && (all[i as int].end matches Some(e)
                            ==> part@[j].end matches Some(f) && f.number <= e.number),
                    forall|j: int|
                        #![trigger out@[j]]
                        0 <= j < out@.len() ==> ({
                            ||| j < before.len() && out@[j] == before[j]
                            ||| before.len() <= j < before.len() + k && out@[j] == part@[j
                                - before.len()]
                        }),
                    out@.len() == before.len() + k,
                    forall|j: int, n: int|
                        #![trigger before[j], all[n]]
                        0 <= j < before.len() && i <= n < all.len() ==> before[j].ends_before(
                            all[n].begin,
                        ),
                    forall|v: int| #[trigger]
                        covers(out@, v) <==> covers(before, v) || covers(part@.take(k as int), v),
                decreases part.ranges@.len() - k,
            {
                let ghost so_far = out@;
                let next: VersionRange = part.ranges[k];
                proof {
                    let n = all[i as int];
                    assert(n.begin.number <= part@[k as int].begin.number);
                    assert forall|j: int| 0 <= j < so_far.len() implies #[trigger] so_far[j].ends_before(next.begin) by {
                        if j < before.len() {
                            assert(before[j].ends_before(n.begin));
                        } else {
                            assert(part@[j - before.len()].ends_before(part@[k as int].begin));
                        }
                    }
                }
                out.push(next);
                assert forall|v: int| #[trigger]
                    covers(out@, v) <==> covers(before, v) || covers(part@.take(k + 1), v) by {
                    lemma_covers_push(so_far, next, v);
                    lemma_covers_take(part@, k as int, v);
                    assert(covers(so_far, v) <==> covers(before, v) || covers(
                        part@.take(k as int),
                        v,
                    ));
                }
                k += 1;
            }
            assert(part@.take(part@.len() as int) =~= part@);
            assert forall|v: int| #[trigger]
                covers(out@, v) <==> self.has(v) && covers(all.take(i + 1), v) by {
                lemma_covers_take(all, i as int, v);
                assert(covers(out@, v) <==> covers(before, v) || covers(
                    part@.take(part@.len() as int),
                    v,
                ));
                assert(part.has(v) <==> self.has(v) && all[i as int].has(v));
                assert(covers(before, v) <==> self.has(v) && covers(all.take(i as int), v));
            }
            assert forall|j: int, n: int|
                #![trigger out@[j], all[n]]
                0 <= j < out@.len() && i + 1 <= n < all.len() implies out@[j].ends_before(
                all[n].begin,
            ) by {
                if j < before.len() {
                    assert(before[j].ends_before(all[n].begin));
                } else {
                    assert(all[i as int].ends_before(all[n].begin));
                    assert(part@[j - before.len()].end is Some);
                }
            }
            i += 1;
        }
        assert(all.take(all.len() as int) =~= all);
        let r: VersionRanges = VersionRanges { ranges: out };
        assert forall|v: int| #[trigger] r.has(v) <==> self.has(v) && other.has(v) by {
            assert(covers(out@, v) <==> self.has(v) && covers(all.take(all.len() as int), v));
        }
        r
    }

    /// The largest version of the set that is at most `v`.
    pub fn find_value_upper_bound(&self, v: VersionNumber) -> (r: Option<VersionNumber>)
        requires
            self.wf(),
        ensures
            match r {
                Some(p) => self.has(p.number as int) && p.number <= v.number && (forall|q: int|
                    q <= v.number && #[trigger] self.has(q) ==> q <= p.number),
                None => forall|q: int| q <= v.number ==> !#[trigger] self.has(q),
            },
    {
        let mut best: Option<VersionNumber> = None;
        let mut i: usize = 0;
        let ghost all = self.ranges@;
        while i < self.ranges.len()
            invariant
                i <= self.ranges@.len(),
                all == self.ranges@,
                canonical(all),
                match best {
                    Some(p) => covers(all, p.number as int) && p.number <= v.number && (forall|q: int|
                        q <= v.number && #[trigger] covers(all.take(i as int), q) ==> q <= p.number)
                        && (forall|k: int| #![trigger all[k]]
                        i <= k < all.len() ==> p.number < all[k].begin.number),
                    None => forall|q: int|
                        q <= v.number ==> !#[trigger] covers(all.take(i as int), q),
                },
            decreases self.ranges@.len() - i,
        {
            let next: VersionRange = self.ranges[i];
            let ghost before = best;
            if next.begin.number <= v.number {
                let p: VersionNumber = match next.end {
                    Some(e) => if e.number <= v.number {
                        VersionNumber { number: e.number - 1 }
                    } else {
                        v
                    },
                    None => v,
                };
                best = Some(p);
                assert(all[i as int].has(p.number as int));
                assert forall|k: int| #![trigger all[k]] i + 1 <= k < all.len() implies p.number
                    < all[k].begin.number by {
                    assert(all[i as int].ends_before(all[k].begin));
                }
            }
            proof {
                assert forall|q: int|
                    q <= v.number && #[trigger] covers(all.take(i + 1), q) implies match best {
                    Some(p) => q <= p.number,
                    None => false,
                } by {
                    lemma_covers_take(all, i as int, q);
                }
            }
            i += 1;
        }
        assert(all.take(all.len() as int) =~= all);
        proof {
            assert forall|q: int| q <= v.number && #[trigger] self.has(q) implies match best {
                Some(p) => q <= p.number,
                None => false,
            } by {
                assert(covers(all.take(all.len() as int), q));
            }
        }
        best
    }

    /// Where the last unbroken run of versions begins, if there is one.
    pub fn last_begin(&self) -> (r: Option<VersionNumber>)
        requires
            self.wf(),
        ensures
            match r {
                Some(b) => begins_run(self.versions(), b.number as int) && forall|c: int|
                    #[trigger] begins_run(self.versions(), c) ==> c <= b.number,
                None => forall|v: int| !#[trigger] self.versions().contains(v),
            },
    {
        let n: usize = self.ranges.len();
        if n == 0 {
            None
        } else {
            let b: VersionNumber = self.ranges[n - 1].begin;
            proof {
                let s = self@;
                assert(s[n - 1].has(b.number as int));
                if covers(s, b.number - 1) {
                    let i = choose|i: int| 0 <= i < s.len() && #[trigger] s[i].has(b.number - 1);
                    assert(s[i].ends_before(s[n - 1].begin));
                    assert(false);
                }
                assert forall|c: int| #[trigger] begins_run(self.versions(), c) implies c
                    <= b.number by {
                    let i = choose|i: int| 0 <= i < s.len() && #[trigger] s[i].has(c);
                    assert(!s[i].has(c - 1));
                    if i < n - 1 {
                        assert(s[i].ends_before(s[n - 1].begin));
                    }
                }
            }
            Some(b)
        }
    }

    /// The ranges, in order.
    pub fn ranges_for_persist(&self) -> (r: &Vec<VersionRange>)
        ensures
            r@ == self@,
    {
        &self.ranges
    }

    /// The set with exactly these ranges.
    pub fn from_persisted_ranges(ranges: Vec<VersionRange>) -> (r: VersionRanges)
        ensures
            r@ == ranges@,
            canonical(ranges@) ==> r.wf(),
    {
        VersionRanges { ranges }
    }
}

/// One set of versions has one list of ranges.
pub proof fn law_canonical_ranges_are_unique(a: VersionRanges, b: VersionRanges)
    requires
        a.wf(),
        b.wf(),
        forall|v: int| #[trigger] a.has(v) <==> b.has(v),
    ensures
        a@ == b@,
{
    assert forall|v: int| #[trigger] covers(a@, v) <==> covers(b@, v) by {
        assert(a.has(v) <==> b.has(v));
    }
    lemma_same_cover(a@, b@);
}

/// The first range of a canonical list holds no version above another's.
proof fn lemma_first(s: Seq<VersionRange>, v: int)
    requires
        canonical(s),
        s.len() > 0,
    ensures
        covers(s, v) ==> s[0].begin.number <= v,
        s[0].has(s[0].begin.number as int),
        covers(s, s[0].begin.number as int),
        covers(s, v) ==> (s[0].has(v) || covers(s.drop_first(), v)),
        covers(s.drop_first(), v) ==> covers(s, v) && !s[0].has(v),
{
    if covers(s, v) {
        let i = choose|i: int| 0 <= i < s.len() && #[trigger] s[i].has(v);
        if i > 0 {
            assert(s[0].ends_before(s[i].begin));
            assert(s.drop_first()[i - 1].has(v));
        }
    }
    if covers(s.drop_first(), v) {
        let i = choose|i: int|
            0 <= i < s.drop_first().len() && #[trigger] s.drop_first()[i].has(v);
        assert(s[i + 1].has(v));
        assert(s[0].ends_before(s[i + 1].begin));
    }
}

/// Canonical lists that cover the same versions are the same.
pub proof fn lemma_same_cover(a: Seq<VersionRange>, b: Seq<VersionRange>)
    requires
        canonical(a),
        canonical(b),
        forall|v: int| #[trigger] covers(a, v) <==> covers(b, v),
    ensures
        a == b,
    decreases a.len(),
{
    if a.len() == 0 {
        if b.len() > 0 {
            lemma_first(b, 0);
            assert(covers(a, b[0].begin.number as int));
        }
        assert(a =~= b);
    } else {
        lemma_first(a, 0);
        assert(covers(b, a[0].begin.number as int));
        assert(b.len() > 0);
        lemma_first(b, 0);
        lemma_first(b, a[0].begin.number as int);
        assert(covers(a, b[0].begin.number as int));
        lemma_first(a, b[0].begin.number as int);
        assert(a[0].begin == b[0].begin);
        // Where one first range ends before the other, the version at its end
        // would be missing from one list only.
        lemma_first_end(a, b);
        lemma_first_end(b, a);
        assert(a[0] == b[0]);
        assert forall|v: int| #[trigger]
            covers(a.drop_first(), v) <==> covers(b.drop_first(), v) by {
            lemma_first(a, v);
            lemma_first(b, v);
            assert(covers(a, v) <==> covers(b, v));
        }
        lemma_same_cover(a.drop_first(), b.drop_first());
        assert(a =~= seq![a[0]] + a.drop_first());
        assert(b =~= seq![b[0]] + b.drop_first());
    }
}

/// If the first range of `a` ends, that of `b` ends no later.
proof fn lemma_first_end(a: Seq<VersionRange>, b: Seq<VersionRange>)
    requires
        canonical(a),
        canonical(b),
        a.len() > 0,
        b.len() > 0,
        a[0].begin == b[0].begin,
        forall|v: int| #[trigger] covers(a, v) <==> covers(b, v),
    ensures
        a[0].end matches Some(e) ==> b[0].end matches Some(f) && f.number <= e.number,
{
    if let Some(e) = a[0].end {
        let v = e.number as int;
        if b[0].has(v) {
            assert(covers(b, v));
            assert(covers(a, v));
            let i = choose|i: int| 0 <= i < a.len() && #[trigger] a[i].has(v);
            if i > 0 {
                assert(a[0].ends_before(a[i].begin));
            }
            assert(false);
        }
    }
}

} // verus!
