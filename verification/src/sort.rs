//! Sorting: the indices of a list in the order of what they stand for.
use vstd::prelude::*;

verus! {

/// An order on the indices of a list.
pub trait IndexOrder {
    /// How many indices there are.
    spec fn count(&self) -> nat;

    /// Whether the list is one that the order is meant for.
    spec fn valid(&self) -> bool;

    /// Whether index `a` comes no later than index `b`.
    spec fn leq(&self, a: int, b: int) -> bool;

    /// Of two indices one comes no later than the other.
    proof fn total(&self, a: int, b: int)
        requires
            self.valid(),
            0 <= a < self.count(),
            0 <= b < self.count(),
        ensures
            self.leq(a, b) || self.leq(b, a),
    ;

    /// What comes no later than something that comes no later than a third comes no later
    /// than the third.
    proof fn transitive(&self, a: int, b: int, c: int)
        requires
            self.valid(),
            0 <= a < self.count(),
            0 <= b < self.count(),
            0 <= c < self.count(),
            self.leq(a, b),
            self.leq(b, c),
        ensures
            self.leq(a, c),
    ;

    /// Whether index `a` comes no later than index `b`.
    fn no_later(&self, a: usize, b: usize) -> (r: bool)
        requires
            self.valid(),
            a < self.count(),
            b < self.count(),
        ensures
            r == self.leq(a as int, b as int),
    ;
}

/// Whether each index comes no later than those after it.
pub open spec fn in_order<O: IndexOrder>(order: O, s: Seq<usize>) -> bool {
    forall|i: int, j: int|
        #![trigger s[i], s[j]]
        0 <= i < j < s.len() ==> order.leq(s[i] as int, s[j] as int)
}

/// Whether the list holds each index from `lo` up to but not including `hi`, once.
pub open spec fn holds_range(s: Seq<usize>, lo: int, hi: int) -> bool {
    &&& s.no_duplicates()
    &&& s.len() == hi - lo
    &&& forall|x: usize| #[trigger] s.contains(x) <==> lo <= x < hi
}

/// What one more element adds to a list of indices.
proof fn lemma_push(s: Seq<usize>, a: usize)
    ensures
        forall|x: usize| #[trigger] s.push(a).contains(x) <==> s.contains(x) || x == a,
{
    assert forall|x: usize| #[trigger] s.push(a).contains(x) <==> s.contains(x) || x == a by {
        if s.contains(x) {
            let i = choose|i: int| 0 <= i < s.len() && s[i] == x;
            assert(s.push(a)[i] == x);
        }
        assert(s.push(a)[s.len() as int] == a);
        if s.push(a).contains(x) {
            let i = choose|i: int| 0 <= i < s.push(a).len() && s.push(a)[i] == x;
            if i < s.len() {
                assert(s[i] == x);
            }
        }
    }
}

/// Puts two ordered lists together.
fn merge<O: IndexOrder>(
    order: &O,
    a: &Vec<usize>,
    b: &Vec<usize>,
    lo: usize,
    mid: usize,
    hi: usize,
) -> (r: Vec<usize>)
    requires
        order.valid(),
        lo <= mid <= hi <= order.count(),
        holds_range(a@, lo as int, mid as int),
        holds_range(b@, mid as int, hi as int),
        in_order(*order, a@),
        in_order(*order, b@),
    ensures
        holds_range(r@, lo as int, hi as int),
        in_order(*order, r@),
{
    let mut out: Vec<usize> = Vec::new();
    let mut i: usize = 0;
    let mut j: usize = 0;
    while i < a.len() || j < b.len()
        invariant
            order.valid(),
            lo <= mid <= hi <= order.count(),
            holds_range(a@, lo as int, mid as int),
            holds_range(b@, mid as int, hi as int),
            in_order(*order, a@),
            in_order(*order, b@),
            i <= a@.len(),
            j <= b@.len(),
            out@.len() == i + j,
            out@.no_duplicates(),
            forall|x: usize| #[trigger]
                out@.contains(x) <==> a@.take(i as int).contains(x) || b@.take(j as int).contains(
                    x,
                ),
            in_order(*order, out@),
            forall|k: int, m: int|
                #![trigger out@[k], a@[m]]
                0 <= k < out@.len() && i <= m < a@.len() ==> order.leq(
                    out@[k] as int,
                    a@[m] as int,
                ),
            forall|k: int, m: int|
                #![trigger out@[k], b@[m]]
                0 <= k < out@.len() && j <= m < b@.len() ==> order.leq(
                    out@[k] as int,
                    b@[m] as int,
                ),
        decreases a@.len() - i + b@.len() - j,
    {
        let ghost before = out@;
        proof {
            if i < a@.len() {
                assert(a@.contains(a@[i as int]));
                assert(a@.take(i + 1) =~= a@.take(i as int).push(a@[i as int]));
                lemma_push(a@.take(i as int), a@[i as int]);
            }
            if j < b@.len() {
                assert(b@.contains(b@[j as int]));
                assert(b@.take(j + 1) =~= b@.take(j as int).push(b@[j as int]));
                lemma_push(b@.take(j as int), b@[j as int]);
            }
        }
        let from_a: bool = if i >= a.len() {
            false
        } else if j >= b.len() {
            true
        } else {
            order.no_later(a[i], b[j])
        };
        if from_a {
            let x: usize = a[i];
            proof {
                lemma_push(before, x);
                lemma_fresh(a@, i as int);
                assert(!b@.take(j as int).contains(x)) by {
                    if b@.take(j as int).contains(x) {
                        let k = choose|k: int| 0 <= k < j && b@.take(j as int)[k] == x;
                        assert(b@.contains(b@[k]));
                    }
                }
                assert(!before.contains(x));
                assert forall|m: int| j <= m < b@.len() implies order.leq(
                    x as int,
                    #[trigger] b@[m] as int,
                ) by {
                    assert(b@.contains(b@[m]));
                    if m > j {
                        assert(order.leq(b@[j as int] as int, b@[m] as int));
                        order.transitive(x as int, b@[j as int] as int, b@[m] as int);
                    }
                }
            }
            out.push(x);
            i += 1;
        } else {
            let x: usize = b[j];
            proof {
                lemma_push(before, x);
                lemma_fresh(b@, j as int);
                assert(!a@.take(i as int).contains(x)) by {
                    if a@.take(i as int).contains(x) {
                        let k = choose|k: int| 0 <= k < i && a@.take(i as int)[k] == x;
                        assert(a@.contains(a@[k]));
                    }
                }
                assert(!before.contains(x));
                assert forall|m: int| i <= m < a@.len() implies order.leq(
                    x as int,
                    #[trigger] a@[m] as int,
                ) by {
                    assert(a@.contains(a@[m]));
                    order.total(a@[i as int] as int, x as int);
                    if m > i {
                        assert(order.leq(a@[i as int] as int, a@[m] as int));
                        order.transitive(x as int, a@[i as int] as int, a@[m] as int);
                    }
                }
            }
            out.push(x);
            j += 1;
        }
        assert forall|p: int, q: int|
            #![trigger out@[p], out@[q]]
            0 <= p < q < out@.len() implies order.leq(out@[p] as int, out@[q] as int) by {
            if q < before.len() {
                assert(order.leq(before[p] as int, before[q] as int));
            } else {
                assert(out@[p] == before[p]);
            }
        }
    }
    proof {
        assert(a@.take(a@.len() as int) =~= a@);
        assert(b@.take(b@.len() as int) =~= b@);
        assert forall|x: usize| #[trigger] out@.contains(x) <==> lo <= x < hi by {
            assert(a@.contains(x) <==> lo <= x < mid);
            assert(b@.contains(x) <==> mid <= x < hi);
        }
    }
    out
}

/// The next element of a list without repeats is not among those before it.
proof fn lemma_fresh(s: Seq<usize>, i: int)
    requires
        s.no_duplicates(),
        0 <= i < s.len(),
    ensures
        !s.take(i).contains(s[i]),
{
    if s.take(i).contains(s[i]) {
        let k = choose|k: int| 0 <= k < i && s.take(i)[k] == s[i];
        assert(s[k] == s[i]);
    }
}

/// The indices from `lo` up to but not including `hi`, in order.
fn sort_range<O: IndexOrder>(order: &O, lo: usize, hi: usize) -> (r: Vec<usize>)
    requires
        order.valid(),
        lo <= hi <= order.count(),
    ensures
        holds_range(r@, lo as int, hi as int),
        in_order(*order, r@),
    decreases hi - lo,
{
    if hi - lo <= 1 {
        let mut out: Vec<usize> = Vec::new();
        if lo < hi {
            out.push(lo);
            proof {
                assert(out@[0] == lo);
                assert forall|x: usize| #[trigger] out@.contains(x) <==> lo <= x < hi by {}
            }
        }
        out
    } else {
        let mid: usize = lo + (hi - lo) / 2;
        let a: Vec<usize> = sort_range(order, lo, mid);
        let b: Vec<usize> = sort_range(order, mid, hi);
        merge(order, &a, &b, lo, mid, hi)
    }
}

/// All indices, in order.
pub fn sorted_indices<O: IndexOrder>(order: &O, count: usize) -> (r: Vec<usize>)
    requires
        order.valid(),
        order.count() == count,
    ensures
        holds_range(r@, 0, count as int),
        in_order(*order, r@),
{
    sort_range(order, 0, count)
}

} // verus!
