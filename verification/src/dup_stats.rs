//! Which strings occur more than once across heaps, and what the copies cost.
//!
//! Every heap has its own copy of common strings. The bytes that would be saved by
//! keeping one copy of each are the total bytes less the distinct ones.
use std::collections::HashMap;
use vstd::prelude::*;
use vstd::utf8::encode_utf8;

use crate::sort::{holds_range, sorted_indices, IndexOrder};
use crate::text::{
    lemma_bytes_less_transitive, lemma_text_less_total, str_less, text_less, texts,
};

verus! {

broadcast use vstd::std_specs::hash::group_hash_axioms;

/// One string that occurs more than once.
#[derive(Debug, PartialEq, Eq)]
pub struct DupStringStat {
    /// The string.
    pub sample: String,
    /// Its length in bytes.
    pub len: usize,
    /// How often it occurs in all heaps.
    pub copies: usize,
}

/// What the strings of some heaps amount to.
#[derive(Debug, PartialEq, Eq)]
pub struct DupStringStats {
    /// How many heaps there are.
    pub heaps: usize,
    /// How many strings they hold.
    pub total_strings: usize,
    /// The bytes of those.
    pub total_bytes: usize,
    /// How many distinct strings there are, told apart by their hashes.
    pub distinct_strings: usize,
    /// The bytes of the distinct ones.
    pub distinct_bytes: usize,
    /// The strings whose copies waste the most, worst first; those that waste the same are
    /// in the order of their text.
    pub top: Vec<DupStringStat>,
}

impl Default for DupStringStats {
    fn default() -> (r: DupStringStats)
        ensures
            r.heaps == 0,
            r.total_strings == 0,
            r.total_bytes == 0,
            r.distinct_strings == 0,
            r.distinct_bytes == 0,
            r.top@.len() == 0,
    {
        DupStringStats {
            heaps: 0,
            total_strings: 0,
            total_bytes: 0,
            distinct_strings: 0,
            distinct_bytes: 0,
            top: Vec::new(),
        }
    }
}

/// A string and how often it occurs.
pub struct DupView {
    pub sample: Seq<char>,
    pub copies: nat,
}

/// How many bytes a text has.
pub open spec fn byte_len(s: Seq<char>) -> nat {
    encode_utf8(s).len()
}

/// The 64-bit FNV-1a hash of some bytes.
pub open spec fn fnv(bytes: Seq<u8>) -> u64
    decreases bytes.len(),
{
    if bytes.len() == 0 {
        0xcbf2_9ce4_8422_2325
    } else {
        (((fnv(bytes.drop_last()) ^ (bytes.last() as u64)) * 0x100_0000_01b3)
            % 0x1_0000_0000_0000_0000) as u64
    }
}

/// The hash by which texts are told apart.
pub open spec fn content_hash(s: Seq<char>) -> u64 {
    fnv(encode_utf8(s))
}

/// How many of the texts have the given hash.
pub open spec fn occurrences(strings: Seq<Seq<char>>, hash: u64) -> nat
    decreases strings.len(),
{
    if strings.len() == 0 {
        0
    } else {
        occurrences(strings.drop_last(), hash) + (if content_hash(strings.last()) == hash {
            1nat
        } else {
            0nat
        })
    }
}

/// The texts whose hash no earlier one has.
pub open spec fn firsts(strings: Seq<Seq<char>>) -> Seq<Seq<char>>
    decreases strings.len(),
{
    if strings.len() == 0 {
        Seq::empty()
    } else {
        let front = firsts(strings.drop_last());
        if occurrences(strings.drop_last(), content_hash(strings.last())) == 0 {
            front.push(strings.last())
        } else {
            front
        }
    }
}

/// How many bytes the texts have together.
pub open spec fn bytes_in(strings: Seq<Seq<char>>) -> nat
    decreases strings.len(),
{
    if strings.len() == 0 {
        0
    } else {
        bytes_in(strings.drop_last()) + byte_len(strings.last())
    }
}

/// The texts of all heaps, one heap after the other.
pub open spec fn all_strings(heaps: Seq<Vec<String>>) -> Seq<Seq<char>>
    decreases heaps.len(),
{
    if heaps.len() == 0 {
        Seq::empty()
    } else {
        all_strings(heaps.drop_last()) + texts(heaps.last()@)
    }
}

impl DupView {
    /// The bytes that keeping one copy would save.
    pub open spec fn wasted(self) -> int {
        byte_len(self.sample) * (self.copies - 1)
    }

    /// Whether this one is a worse offender: it wastes more, or as much and comes first in the
    /// order of text.
    pub open spec fn worse(self, other: DupView) -> bool {
        ||| self.wasted() > other.wasted()
        ||| self.wasted() == other.wasted() && text_less(self.sample, other.sample)
    }
}

impl View for DupStringStat {
    type V = DupView;

    open spec fn view(&self) -> DupView {
        DupView { sample: self.sample@, copies: self.copies as nat }
    }
}

/// Whether `d` is a text that occurs more than once, the first of its hash, with how often
/// it occurs.
pub open spec fn is_duplicate(strings: Seq<Seq<char>>, d: DupView) -> bool {
    &&& firsts(strings).contains(d.sample)
    &&& d.copies == occurrences(strings, content_hash(d.sample))
    &&& d.copies > 1
}

/// The texts that occur more than once.
pub open spec fn duplicates(strings: Seq<Seq<char>>) -> Seq<Seq<char>> {
    firsts(strings).filter(|s: Seq<char>| occurrences(strings, content_hash(s)) > 1)
}

/// The 64-bit FNV-1a hash of a text.
pub fn fnv1a(s: &str) -> (r: u64)
    ensures
        r == content_hash(s@),
{
    let bytes: &[u8] = s.as_bytes();
    let mut h: u64 = 0xcbf2_9ce4_8422_2325;
    let mut i: usize = 0;
    assert(bytes@.take(0) =~= Seq::<u8>::empty());
    while i < bytes.len()
        invariant
            i <= bytes@.len(),
            h == fnv(bytes@.take(i as int)),
        decreases bytes@.len() - i,
    {
        let b: u64 = bytes[i] as u64;
        assert(bytes@.take(i + 1).drop_last() =~= bytes@.take(i as int));
        h = h ^ b;
        h = h.wrapping_mul(0x100_0000_01b3);
        i += 1;
    }
    assert(bytes@.take(bytes@.len() as int) =~= bytes@);
    h
}

impl DupStringStat {
    /// The bytes that keeping one copy would save.
    pub fn wasted_bytes(&self) -> (r: usize)
        requires
            self.copies >= 1,
            self.len * (self.copies - 1) <= usize::MAX,
        ensures
            r == self.len * (self.copies - 1),
    {
        self.len * (self.copies - 1)
    }
}

/// Whether the list holds the worst offenders among the texts, as many as are asked for or
/// there are, the worst first.
pub open spec fn is_top(strings: Seq<Seq<char>>, top: Seq<DupStringStat>, top_n: nat) -> bool {
    &&& top.len() == (if top_n < duplicates(strings).len() {
        top_n
    } else {
        duplicates(strings).len()
    })
    &&& forall|i: int|
        #![trigger top[i]]
        0 <= i < top.len() ==> is_duplicate(strings, top[i]@) && top[i].len == byte_len(
            top[i].sample@,
        )
    &&& forall|i: int, j: int|
        #![trigger top[i], top[j]]
        0 <= i < j < top.len() ==> top[i]@.worse(top[j]@)
    &&& forall|d: DupView, i: int|
        #![trigger is_duplicate(strings, d), top[i]]
        is_duplicate(strings, d) && !is_listed(top, d) && 0 <= i < top.len() ==> top[i]@.worse(d)
}

/// Whether `d` is in the list.
pub open spec fn is_listed(top: Seq<DupStringStat>, d: DupView) -> bool {
    exists|i: int| 0 <= i < top.len() && #[trigger] top[i]@ == d
}

/// Whether the statistics are those of the heaps, with at most `top_n` of the worst offenders.
pub open spec fn is_stats(heaps: Seq<Vec<String>>, top_n: nat, stats: DupStringStats) -> bool {
    let strings = all_strings(heaps);
    &&& stats.heaps == heaps.len()
    &&& stats.total_strings == strings.len()
    &&& stats.total_bytes == bytes_in(strings)
    &&& stats.distinct_strings == firsts(strings).len()
    &&& stats.distinct_bytes == bytes_in(firsts(strings))
    &&& is_top(strings, stats.top@, top_n)
}

/// A group of texts with one hash: the first of them, its length, and how many there are.
#[derive(Clone, Copy)]
struct Group<'a> {
    sample: &'a String,
    len: usize,
    copies: usize,
}

impl<'a> Group<'a> {
    /// What the group stands for.
    spec fn dup(self) -> DupView {
        DupView { sample: self.sample@, copies: self.copies as nat }
    }
}

/// Whether the groups are those of the texts.
spec fn groups_of(groups: Seq<Group<'_>>, strings: Seq<Seq<char>>) -> bool {
    &&& groups.len() == firsts(strings).len()
    &&& forall|g: int|
        #![trigger groups[g]]
        0 <= g < groups.len() ==> groups[g].sample@ == firsts(strings)[g] && groups[g].len
            == byte_len(groups[g].sample@) && groups[g].copies == occurrences(
            strings,
            content_hash(groups[g].sample@),
        )
}

/// Whether the index finds the group of each hash.
spec fn index_of(index: Map<u64, usize>, strings: Seq<Seq<char>>) -> bool {
    forall|h: u64|
        #![trigger index.contains_key(h)]
        (index.contains_key(h) <==> occurrences(strings, h) > 0) && (index.contains_key(h)
            ==> index[h] < firsts(strings).len() && content_hash(firsts(strings)[index[h] as int])
            == h)
}

/// Of the first texts of their hashes no two have the same hash, and each occurs.
proof fn lemma_firsts(strings: Seq<Seq<char>>)
    ensures
        forall|i: int, j: int|
            #![trigger firsts(strings)[i], firsts(strings)[j]]
            0 <= i < j < firsts(strings).len() ==> content_hash(firsts(strings)[i])
                != content_hash(firsts(strings)[j]),
        forall|i: int|
            #![trigger firsts(strings)[i]]
            0 <= i < firsts(strings).len() ==> occurrences(
                strings,
                content_hash(firsts(strings)[i]),
            ) > 0,
        bytes_in(firsts(strings)) <= bytes_in(strings),
        firsts(strings).len() <= strings.len(),
    decreases strings.len(),
{
    if strings.len() > 0 {
        let front = strings.drop_last();
        lemma_firsts(front);
        if occurrences(front, content_hash(strings.last())) == 0 {
            assert(firsts(strings).drop_last() =~= firsts(front));
        }
    }
}

/// No hash occurs more often than there are texts.
proof fn lemma_occurrences_bound(strings: Seq<Seq<char>>, h: u64)
    ensures
        occurrences(strings, h) <= strings.len(),
    decreases strings.len(),
{
    if strings.len() > 0 {
        lemma_occurrences_bound(strings.drop_last(), h);
    }
}

/// The bytes of two lists together.
proof fn lemma_bytes_concat(a: Seq<Seq<char>>, b: Seq<Seq<char>>)
    ensures
        bytes_in(a + b) == bytes_in(a) + bytes_in(b),
    decreases b.len(),
{
    if b.len() == 0 {
        assert(a + b =~= a);
    } else {
        lemma_bytes_concat(a, b.drop_last());
        assert((a + b).drop_last() =~= a + b.drop_last());
    }
}

/// Counts one more text.
fn count<'a>(
    groups: &mut Vec<Group<'a>>,
    index: &mut HashMap<u64, usize>,
    s: &'a String,
    strings: Ghost<Seq<Seq<char>>>,
) -> (r: usize)
    requires
        groups_of(old(groups)@, strings@),
        index_of(old(index)@, strings@),
        strings@.len() < usize::MAX,
    ensures
        groups_of(final(groups)@, strings@.push(s@)),
        index_of(final(index)@, strings@.push(s@)),
        r == bytes_in(firsts(strings@.push(s@))) - bytes_in(firsts(strings@)),
{
    let h: u64 = fnv1a(s.as_str());
    let ghost before = strings@;
    let ghost after = strings@.push(s@);
    proof {
        assert(after.drop_last() =~= before);
        lemma_firsts(before);
        lemma_firsts(after);
        assert forall|x: u64| #[trigger] occurrences(after, x) == occurrences(before, x) + (if x
            == h {
            1nat
        } else {
            0nat
        }) by {}
    }
    let ghost was = groups@;
    let ghost was_index = index@;
    let found: Option<usize> = match index.get(&h) {
        Some(g) => Some(*g),
        None => None,
    };
    assert(found is Some <==> was_index.contains_key(h));
    assert(was_index.contains_key(h) <==> occurrences(before, h) > 0);
    match found {
        Some(g) => {
            let group: Group<'a> = groups[g];
            proof {
                lemma_occurrences_bound(before, h);
            }
            groups.set(
                g,
                Group { sample: group.sample, len: group.len, copies: group.copies + 1 },
            );
            proof {
                assert(firsts(after) =~= firsts(before));
                assert forall|k: int| #![trigger groups@[k]] 0 <= k < groups@.len() implies
                    groups@[k].sample@ == firsts(after)[k] && groups@[k].len == byte_len(
                    groups@[k].sample@,
                ) && groups@[k].copies == occurrences(
                    after,
                    content_hash(groups@[k].sample@),
                ) by {
                    assert(was[k].sample@ == firsts(before)[k]);
                    if k < g {
                        assert(content_hash(firsts(before)[k]) != content_hash(
                            firsts(before)[g as int],
                        ));
                    }
                    if g < k {
                        assert(content_hash(firsts(before)[g as int]) != content_hash(
                            firsts(before)[k],
                        ));
                    }
                }
                assert forall|x: u64| #![trigger index@.contains_key(x)] (index@.contains_key(x)
                    <==> occurrences(after, x) > 0) && (index@.contains_key(x) ==> index@[x]
                    < firsts(after).len() && content_hash(firsts(after)[index@[x] as int])
                    == x) by {
                    assert(was_index.contains_key(x) <==> occurrences(before, x) > 0);
                }
            }
            0
        },
        None => {
            let len: usize = s.as_str().as_bytes().len();
            let n: usize = groups.len();
            groups.push(Group { sample: s, len, copies: 1 });
            let _ = index.insert(h, n);
            proof {
                assert(firsts(after) == firsts(before).push(s@));
                assert(firsts(after).drop_last() =~= firsts(before));
                assert forall|k: int| #![trigger groups@[k]] 0 <= k < groups@.len() implies
                    groups@[k].sample@ == firsts(after)[k] && groups@[k].len == byte_len(
                    groups@[k].sample@,
                ) && groups@[k].copies == occurrences(
                    after,
                    content_hash(groups@[k].sample@),
                ) by {
                    if k < n {
                        assert(was[k].sample@ == firsts(before)[k]);
                        assert(occurrences(before, content_hash(firsts(before)[k])) > 0);
                    }
                }
                assert forall|x: u64| #![trigger index@.contains_key(x)] (index@.contains_key(x)
                    <==> occurrences(after, x) > 0) && (index@.contains_key(x) ==> index@[x]
                    < firsts(after).len() && content_hash(firsts(after)[index@[x] as int])
                    == x) by {
                    assert(was_index.contains_key(x) <==> occurrences(before, x) > 0);
                }
            }
            len
        },
    }
}

impl<'a> Group<'a> {
    /// Whether the length is that of the text and there is a copy.
    spec fn sound(self) -> bool {
        self.copies >= 1 && self.len == byte_len(self.sample@)
    }

    /// The bytes that keeping one copy would save.
    fn wasted(&self) -> (r: u128)
        requires
            self.sound(),
        ensures
            r == self.dup().wasted(),
    {
        let len: u128 = self.len as u128;
        let more: u128 = (self.copies - 1) as u128;
        assert(len * more <= 0xffff_ffff_ffff_ffff * 0xffff_ffff_ffff_ffff) by (nonlinear_arith)
            requires
                len <= 0xffff_ffff_ffff_ffff,
                more <= 0xffff_ffff_ffff_ffff,
        ;
        len * more
    }

    /// Whether this one is a worse offender.
    fn worse(&self, other: &Group<'_>) -> (r: bool)
        requires
            self.sound(),
            other.sound(),
        ensures
            r == self.dup().worse(other.dup()),
    {
        let mine: u128 = self.wasted();
        let theirs: u128 = other.wasted();
        if mine != theirs {
            mine > theirs
        } else {
            str_less(self.sample.as_str(), other.sample.as_str())
        }
    }
}

/// What is not after something that is not after a third is not after the third.
proof fn lemma_text_not_after(a: Seq<char>, b: Seq<char>, c: Seq<char>)
    requires
        !text_less(b, a),
        !text_less(c, b),
    ensures
        !text_less(c, a),
{
    lemma_text_less_total(a, b);
    lemma_text_less_total(b, c);
    lemma_text_less_total(a, c);
    if text_less(c, a) && a != b && b != c {
        lemma_bytes_less_transitive(encode_utf8(a), encode_utf8(b), encode_utf8(c));
    }
}

/// The worst offender first.
struct WorstFirst<'b, 'a> {
    groups: &'b Vec<Group<'a>>,
}

impl<'b, 'a> IndexOrder for WorstFirst<'b, 'a> {
    closed spec fn count(&self) -> nat {
        self.groups@.len()
    }

    closed spec fn valid(&self) -> bool {
        forall|i: int| #![trigger self.groups@[i]] 0 <= i < self.groups@.len() ==> self.groups@[i].sound()
    }

    closed spec fn leq(&self, a: int, b: int) -> bool {
        !self.groups@[b].dup().worse(self.groups@[a].dup())
    }

    proof fn total(&self, a: int, b: int) {
        lemma_text_less_total(self.groups@[a].sample@, self.groups@[b].sample@);
    }

    proof fn transitive(&self, a: int, b: int, c: int) {
        let (x, y, z) = (self.groups@[a].sample@, self.groups@[b].sample@, self.groups@[c].sample@);
        if !text_less(y, x) && !text_less(z, y) {
            lemma_text_not_after(x, y, z);
        }
    }

    fn no_later(&self, a: usize, b: usize) -> (r: bool) {
        !self.groups[b].worse(&self.groups[a])
    }
}

/// Whether the groups are those of the texts that occur more than once.
spec fn duplicate_groups(groups: Seq<Group<'_>>, strings: Seq<Seq<char>>) -> bool {
    &&& groups.len() == duplicates(strings).len()
    &&& forall|g: int|
        #![trigger groups[g]]
        0 <= g < groups.len() ==> groups[g].sound() && groups[g].sample@ == duplicates(strings)[g]
            && is_duplicate(strings, groups[g].dup())
}

/// The groups of the texts that occur more than once.
fn only_duplicates<'a>(groups: &Vec<Group<'a>>, strings: Ghost<Seq<Seq<char>>>) -> (r: Vec<
    Group<'a>,
>)
    requires
        groups_of(groups@, strings@),
    ensures
        duplicate_groups(r@, strings@),
{
    let mut out: Vec<Group<'a>> = Vec::new();
    let ghost all = firsts(strings@);
    let ghost keep = |s: Seq<char>| occurrences(strings@, content_hash(s)) > 1;
    let mut i: usize = 0;
    proof {
        reveal(Seq::filter);
        assert(all.take(0).filter(keep) =~= Seq::<Seq<char>>::empty());
    }
    while i < groups.len()
        invariant
            groups_of(groups@, strings@),
            all == firsts(strings@),
            keep == (|s: Seq<char>| occurrences(strings@, content_hash(s)) > 1),
            i <= groups@.len(),
            out@.len() == all.take(i as int).filter(keep).len(),
            forall|g: int|
                #![trigger out@[g]]
                0 <= g < out@.len() ==> out@[g].sound() && out@[g].sample@ == all.take(
                    i as int,
                ).filter(keep)[g] && is_duplicate(strings@, out@[g].dup()),
        decreases groups@.len() - i,
    {
        let group: Group<'a> = groups[i];
        proof {
            assert(all.take(i + 1).drop_last() =~= all.take(i as int));
            reveal(Seq::filter);
            assert(all.contains(all[i as int]));
        }
        if group.copies > 1 {
            out.push(group);
        }
        i += 1;
    }
    assert(all.take(all.len() as int) =~= all);
    out
}

/// No two groups of texts that occur more than once have the same text.
proof fn lemma_duplicates_distinct(groups: Seq<Group<'_>>, strings: Seq<Seq<char>>)
    requires
        duplicate_groups(groups, strings),
    ensures
        forall|i: int, j: int|
            #![trigger groups[i], groups[j]]
            0 <= i < j < groups.len() ==> groups[i].sample@ != groups[j].sample@,
        forall|d: DupView| #[trigger]
            is_duplicate(strings, d) ==> exists|g: int|
                0 <= g < groups.len() && #[trigger] groups[g].dup() == d,
{
    let all = firsts(strings);
    let keep = |s: Seq<char>| occurrences(strings, content_hash(s)) > 1;
    let kept = duplicates(strings);
    lemma_firsts(strings);
    assert(all.no_duplicates()) by {
        assert forall|i: int, j: int| 0 <= i < all.len() && 0 <= j < all.len() && i != j implies all[i]
            != all[j] by {
            if i < j {
                assert(content_hash(all[i]) != content_hash(all[j]));
            } else {
                assert(content_hash(all[j]) != content_hash(all[i]));
            }
        }
    }
    lemma_filter_no_duplicates(all, keep);
    assert forall|i: int, j: int|
        #![trigger groups[i], groups[j]]
        0 <= i < j < groups.len() implies groups[i].sample@ != groups[j].sample@ by {
        assert(kept[i] != kept[j]);
    }
    assert forall|d: DupView| #[trigger] is_duplicate(strings, d) implies exists|g: int|
        0 <= g < groups.len() && #[trigger] groups[g].dup() == d by {
        lemma_filter_keeps(all, keep, d.sample);
        let g = choose|g: int| 0 <= g < kept.len() && kept[g] == d.sample;
        assert(groups[g].sample@ == d.sample);
        assert(is_duplicate(strings, groups[g].dup()));
        assert(groups[g].dup() == d);
    }
}

/// What is kept of a list without repeats has none either.
proof fn lemma_filter_no_duplicates<A>(s: Seq<A>, keep: spec_fn(A) -> bool)
    requires
        s.no_duplicates(),
    ensures
        s.filter(keep).no_duplicates(),
        forall|x: A| #[trigger] s.filter(keep).contains(x) ==> s.contains(x),
    decreases s.len(),
{
    reveal(Seq::filter);
    if s.len() > 0 {
        let front = s.drop_last();
        lemma_filter_no_duplicates(front, keep);
        let kept = front.filter(keep);
        assert(!front.contains(s.last()));
        assert(!kept.contains(s.last()));
        assert forall|i: int, j: int|
            0 <= i < s.filter(keep).len() && 0 <= j < s.filter(keep).len() && i
                != j implies s.filter(keep)[i] != s.filter(keep)[j] by {
            if i < kept.len() {
                assert(kept.contains(kept[i]));
            }
            if j < kept.len() {
                assert(kept.contains(kept[j]));
            }
        }
        assert forall|x: A| #[trigger] s.filter(keep).contains(x) implies s.contains(x) by {
            if kept.contains(x) {
                assert(front.contains(x));
                let i = choose|i: int| 0 <= i < front.len() && front[i] == x;
                assert(s[i] == x);
            } else {
                assert(s[s.len() - 1] == x);
            }
        }
    }
}

/// A member that is to be kept is.
proof fn lemma_filter_keeps<A>(s: Seq<A>, keep: spec_fn(A) -> bool, x: A)
    requires
        s.contains(x),
        keep(x),
    ensures
        s.filter(keep).contains(x),
    decreases s.len(),
{
    reveal(Seq::filter);
    let i = choose|i: int| 0 <= i < s.len() && s[i] == x;
    let front = s.drop_last();
    if i == s.len() - 1 {
        assert(s.filter(keep)[front.filter(keep).len() as int] == x);
    } else {
        assert(front[i] == x);
        lemma_filter_keeps(front, keep, x);
        let j = choose|j: int| 0 <= j < front.filter(keep).len() && front.filter(keep)[j] == x;
        assert(s.filter(keep)[j] == x);
    }
}

/// The worst offenders, at most `top_n`.
fn worst<'a>(groups: &Vec<Group<'a>>, top_n: usize, strings: Ghost<Seq<Seq<char>>>) -> (r: Vec<
    Group<'a>,
>)
    requires
        duplicate_groups(groups@, strings@),
    ensures
        r@.len() == (if top_n < groups@.len() {
            top_n as nat
        } else {
            groups@.len()
        }),
        forall|i: int|
            #![trigger r@[i]]
            0 <= i < r@.len() ==> r@[i].sound() && is_duplicate(strings@, r@[i].dup()),
        forall|i: int, j: int|
            #![trigger r@[i], r@[j]]
            0 <= i < j < r@.len() ==> r@[i].dup().worse(r@[j].dup()),
        forall|d: DupView, i: int|
            #![trigger is_duplicate(strings@, d), r@[i]]
            is_duplicate(strings@, d) && !(exists|j: int|
                0 <= j < r@.len() && #[trigger] r@[j].dup() == d) && 0 <= i < r@.len()
                ==> r@[i].dup().worse(d),
{
    let order: WorstFirst<'_, 'a> = WorstFirst { groups };
    let ranked: Vec<usize> = sorted_indices(&order, groups.len());
    let mut out: Vec<Group<'a>> = Vec::new();
    let mut i: usize = 0;
    while i < ranked.len() && i < top_n
        invariant
            i <= ranked@.len(),
            i <= top_n,
            holds_range(ranked@, 0, groups@.len() as int),
            out@.len() == i,
            forall|k: int|
                #![trigger out@[k]]
                0 <= k < i ==> out@[k] == groups@[ranked@[k] as int],
        decreases ranked@.len() - i,
    {
        assert(ranked@.contains(ranked@[i as int]));
        out.push(groups[ranked[i]]);
        i += 1;
    }
    proof {
        lemma_duplicates_distinct(groups@, strings@);
        let r = out@;
        assert forall|a: int| #![trigger r[a]] 0 <= a < r.len() implies r[a].sound() && is_duplicate(
            strings@,
            r[a].dup(),
        ) by {
            assert(ranked@.contains(ranked@[a]));
        }
        assert forall|a: int, b: int|
            #![trigger r[a], r[b]]
            0 <= a < b < r.len() implies r[a].dup().worse(r[b].dup()) by {
            assert(ranked@.contains(ranked@[a]));
            assert(ranked@.contains(ranked@[b]));
            let (x, y) = (ranked@[a] as int, ranked@[b] as int);
            assert(order.leq(x, y));
            assert(x != y);
            if x < y {
                assert(groups@[x].sample@ != groups@[y].sample@);
            } else {
                assert(groups@[y].sample@ != groups@[x].sample@);
            }
            lemma_text_less_total(groups@[x].sample@, groups@[y].sample@);
        }
        assert forall|d: DupView, a: int|
            #![trigger is_duplicate(strings@, d), r[a]]
            is_duplicate(strings@, d) && !(exists|j: int|
                0 <= j < r.len() && #[trigger] r[j].dup() == d) && 0 <= a < r.len() implies r[a].dup().worse(
        d) by {
            let g = choose|g: int| 0 <= g < groups@.len() && #[trigger] groups@[g].dup() == d;
            assert(ranked@.contains(g as usize));
            let p = choose|p: int| 0 <= p < ranked@.len() && ranked@[p] == g as usize;
            if p < r.len() {
                assert(r[p].dup() == d);
            }
            assert(a < p);
            assert(order.leq(ranked@[a] as int, ranked@[p] as int));
            assert(ranked@.contains(ranked@[a]));
            let x = ranked@[a] as int;
            assert(x != g);
            if x < g {
                assert(groups@[x].sample@ != groups@[g].sample@);
            } else {
                assert(groups@[g].sample@ != groups@[x].sample@);
            }
            lemma_text_less_total(groups@[x].sample@, groups@[g].sample@);
        }
    }
    out
}

/// The given offenders, as they are reported.
fn listed(groups: &Vec<Group<'_>>) -> (r: Vec<DupStringStat>)
    ensures
        r@.len() == groups@.len(),
        forall|i: int|
            #![trigger r@[i]]
            0 <= i < r@.len() ==> r@[i]@ == groups@[i].dup() && r@[i].len == groups@[i].len,
{
    let mut out: Vec<DupStringStat> = Vec::new();
    let mut i: usize = 0;
    while i < groups.len()
        invariant
            i <= groups@.len(),
            out@.len() == i,
            forall|k: int|
                #![trigger out@[k]]
                0 <= k < i ==> out@[k]@ == groups@[k].dup() && out@[k].len == groups@[k].len,
        decreases groups@.len() - i,
    {
        let group: &Group<'_> = &groups[i];
        out.push(
            DupStringStat {
                sample: group.sample.clone(),
                len: group.len,
                copies: group.copies,
            },
        );
        i += 1;
    }
    out
}

/// The texts of the first `i + 1` heaps, up to the `j`-th text of the last of them.
proof fn lemma_all_strings(heaps: Seq<Vec<String>>, i: int, j: int)
    requires
        0 <= i < heaps.len(),
        0 <= j <= heaps[i]@.len(),
    ensures
        all_strings(heaps.take(i + 1)) == all_strings(heaps.take(i)) + texts(heaps[i]@),
        (all_strings(heaps.take(i)) + texts(heaps[i]@).take(j)).len() <= all_strings(heaps).len(),
        bytes_in(all_strings(heaps.take(i)) + texts(heaps[i]@).take(j)) <= bytes_in(
            all_strings(heaps),
        ),
    decreases heaps.len() - i,
{
    assert(heaps.take(i + 1).drop_last() =~= heaps.take(i));
    let here = texts(heaps[i]@);
    let front = all_strings(heaps.take(i));
    assert(here =~= here.take(j) + here.skip(j));
    lemma_bytes_concat(front, here);
    lemma_bytes_concat(front, here.take(j));
    lemma_bytes_concat(here.take(j), here.skip(j));
    if i + 1 < heaps.len() {
        lemma_all_strings(heaps, i + 1, 0);
        let next = texts(heaps[i + 1]@).take(0);
        assert(front + here + next =~= front + here);
    } else {
        assert(heaps.take(i + 1) =~= heaps);
    }
}

/// What the strings of the heaps amount to, with at most `top_n` of the worst offenders.
pub fn dup_string_stats(heaps: &Vec<Vec<String>>, top_n: usize) -> (r: DupStringStats)
    requires
        all_strings(heaps@).len() <= usize::MAX,
        bytes_in(all_strings(heaps@)) <= usize::MAX,
    ensures
        is_stats(heaps@, top_n as nat, r),
{
    let mut groups: Vec<Group<'_>> = Vec::new();
    let mut index: HashMap<u64, usize> = HashMap::new();
    let mut total_strings: usize = 0;
    let mut total_bytes: usize = 0;
    let mut distinct_bytes: usize = 0;
    let ghost all = all_strings(heaps@);
    let mut i: usize = 0;
    proof {
        assert(heaps@.take(0) =~= Seq::<Vec<String>>::empty());
    }
    while i < heaps.len()
        invariant
            i <= heaps@.len(),
            all == all_strings(heaps@),
            all.len() <= usize::MAX,
            bytes_in(all) <= usize::MAX,
            total_strings == all_strings(heaps@.take(i as int)).len(),
            total_bytes == bytes_in(all_strings(heaps@.take(i as int))),
            distinct_bytes == bytes_in(firsts(all_strings(heaps@.take(i as int)))),
            groups_of(groups@, all_strings(heaps@.take(i as int))),
            index_of(index@, all_strings(heaps@.take(i as int))),
        decreases heaps@.len() - i,
    {
        let heap: &Vec<String> = &heaps[i];
        let ghost front = all_strings(heaps@.take(i as int));
        let ghost here = texts(heap@);
        let mut j: usize = 0;
        assert(front + here.take(0) =~= front);
        while j < heap.len()
            invariant
                i < heaps@.len(),
                j <= heap@.len(),
                *heap == heaps@[i as int],
                here == texts(heap@),
                front == all_strings(heaps@.take(i as int)),
                all == all_strings(heaps@),
                all.len() <= usize::MAX,
                bytes_in(all) <= usize::MAX,
                total_strings == (front + here.take(j as int)).len(),
                total_bytes == bytes_in(front + here.take(j as int)),
                distinct_bytes == bytes_in(firsts(front + here.take(j as int))),
                groups_of(groups@, front + here.take(j as int)),
                index_of(index@, front + here.take(j as int)),
            decreases heap@.len() - j,
        {
            let s: &String = &heap[j];
            let ghost before = front + here.take(j as int);
            let ghost after = front + here.take(j + 1);
            proof {
                assert(after =~= before.push(s@));
                assert(after.drop_last() =~= before);
                lemma_all_strings(heaps@, i as int, j + 1);
                lemma_firsts(after);
            }
            let more: usize = count(&mut groups, &mut index, s, Ghost(before));
            total_strings += 1;
            total_bytes += s.as_str().as_bytes().len();
            distinct_bytes += more;
            j += 1;
        }
        proof {
            assert(here.take(here.len() as int) =~= here);
            lemma_all_strings(heaps@, i as int, 0);
        }
        i += 1;
    }
    assert(heaps@.take(heaps@.len() as int) =~= heaps@);
    let dups: Vec<Group<'_>> = only_duplicates(&groups, Ghost(all));
    let selected: Vec<Group<'_>> = worst(&dups, top_n, Ghost(all));
    let top: Vec<DupStringStat> = listed(&selected);
    proof {
        let (r, s) = (top@, selected@);
        assert forall|i: int| #![trigger r[i]] 0 <= i < r.len() implies is_duplicate(all, r[i]@)
            && r[i].len == byte_len(r[i].sample@) by {
            assert(s[i].sound());
        }
        assert forall|i: int, j: int|
            #![trigger r[i], r[j]]
            0 <= i < j < r.len() implies r[i]@.worse(r[j]@) by {
            assert(s[i].dup().worse(s[j].dup()));
        }
        assert forall|d: DupView, i: int|
            #![trigger is_duplicate(all, d), r[i]]
            is_duplicate(all, d) && !is_listed(r, d) && 0 <= i < r.len() implies r[i]@.worse(d) by {
            assert forall|j: int| 0 <= j < s.len() implies #[trigger] s[j].dup() != d by {
                assert(r[j]@ == s[j].dup());
            }
            assert(s[i].dup().worse(d));
        }
    }
    DupStringStats {
        heaps: heaps.len(),
        total_strings,
        total_bytes,
        distinct_strings: groups.len(),
        distinct_bytes,
        top,
    }
}

/// There are no more distinct strings than strings, nor more bytes in them.
pub proof fn law_distinct_within_total(strings: Seq<Seq<char>>)
    ensures
        firsts(strings).len() <= strings.len(),
        bytes_in(firsts(strings)) <= bytes_in(strings),
{
    lemma_firsts(strings);
}

/// The bytes that keeping one copy of each of the given texts would save.
pub open spec fn wasted_in(samples: Seq<Seq<char>>, strings: Seq<Seq<char>>) -> int
    decreases samples.len(),
{
    if samples.len() == 0 {
        0
    } else {
        wasted_in(samples.drop_last(), strings) + (DupView {
            sample: samples.last(),
            copies: occurrences(strings, content_hash(samples.last())),
        }).wasted()
    }
}

/// One more text adds its bytes to what its own hash wastes, and nothing elsewhere.
proof fn lemma_wasted_step(samples: Seq<Seq<char>>, strings: Seq<Seq<char>>, s: Seq<char>)
    requires
        forall|i: int, j: int|
            #![trigger samples[i], samples[j]]
            0 <= i < j < samples.len() ==> content_hash(samples[i]) != content_hash(samples[j]),
        forall|i: int|
            #![trigger samples[i]]
            0 <= i < samples.len() && content_hash(samples[i]) == content_hash(s) ==> byte_len(
                samples[i],
            ) == byte_len(s),
    ensures
        wasted_in(samples, strings.push(s)) == wasted_in(samples, strings) + (if exists|i: int|
            #![trigger samples[i]]
            0 <= i < samples.len() && content_hash(samples[i]) == content_hash(s) {
            byte_len(s) as int
        } else {
            0
        }),
    decreases samples.len(),
{
    if samples.len() > 0 {
        let front = samples.drop_last();
        let last = samples.last();
        let n = samples.len() - 1;
        assert forall|i: int, j: int|
            #![trigger front[i], front[j]]
            0 <= i < j < front.len() implies content_hash(front[i]) != content_hash(front[j]) by {
            assert(content_hash(samples[i]) != content_hash(samples[j]));
        }
        assert forall|i: int|
            #![trigger front[i]]
            0 <= i < front.len() && content_hash(front[i]) == content_hash(s) implies byte_len(
            front[i],
        ) == byte_len(s) by {
            assert(samples[i] == front[i]);
        }
        lemma_wasted_step(front, strings, s);
        assert(strings.push(s).drop_last() =~= strings);
        let h = content_hash(last);
        let c = occurrences(strings, h) as int;
        assert(samples[n] == last);
        if h == content_hash(s) {
            assert(occurrences(strings.push(s), h) == c + 1);
            assert(byte_len(last) * (c + 1 - 1) == byte_len(last) * (c - 1) + byte_len(last))
                by (nonlinear_arith);
            assert(byte_len(last) == byte_len(s));
            assert forall|i: int| #![trigger front[i]] 0 <= i < front.len() implies content_hash(
                front[i],
            ) != content_hash(s) by {
                assert(content_hash(samples[i]) != content_hash(samples[n]));
            }
        } else {
            assert(occurrences(strings.push(s), h) == c);
            if exists|i: int|
                #![trigger samples[i]]
                0 <= i < samples.len() && content_hash(samples[i]) == content_hash(s) {
                let i = choose|i: int|
                    #![trigger samples[i]]
                    0 <= i < samples.len() && content_hash(samples[i]) == content_hash(s);
                assert(front[i] == samples[i]);
            }
            if exists|i: int|
                #![trigger front[i]]
                0 <= i < front.len() && content_hash(front[i]) == content_hash(s) {
                let i = choose|i: int|
                    #![trigger front[i]]
                    0 <= i < front.len() && content_hash(front[i]) == content_hash(s);
                assert(samples[i] == front[i]);
            }
        }
    }
}

/// A hash that occurs is that of one of the first texts, which is one of the texts.
proof fn lemma_first_of_hash(strings: Seq<Seq<char>>, h: u64)
    ensures
        occurrences(strings, h) > 0 <==> exists|i: int|
            #![trigger firsts(strings)[i]]
            0 <= i < firsts(strings).len() && content_hash(firsts(strings)[i]) == h,
        forall|i: int|
            #![trigger firsts(strings)[i]]
            0 <= i < firsts(strings).len() ==> strings.contains(firsts(strings)[i]),
    decreases strings.len(),
{
    lemma_firsts(strings);
    if strings.len() > 0 {
        let front = strings.drop_last();
        let s = strings.last();
        lemma_first_of_hash(front, h);
        lemma_first_of_hash(front, content_hash(s));
        let f = firsts(front);
        let g = firsts(strings);
        assert(strings[strings.len() - 1] == s);
        assert forall|i: int| #![trigger g[i]] 0 <= i < g.len() implies strings.contains(g[i]) by {
            if i < f.len() {
                assert(g[i] == f[i]);
                let j = choose|j: int| 0 <= j < front.len() && front[j] == f[i];
                assert(strings[j] == g[i]);
            }
        }
        if occurrences(strings, h) > 0 {
            if occurrences(front, h) > 0 {
                let i = choose|i: int|
                    #![trigger f[i]]
                    0 <= i < f.len() && content_hash(f[i]) == h;
                assert(g[i] == f[i]);
            } else {
                assert(g[f.len() as int] == s);
            }
        }
    }
}

/// What all copies waste is the bytes in all strings less the bytes in the distinct ones.
/// Strings of different lengths with one hash would spoil the sum.
pub proof fn law_wasted_bytes_are_the_difference(strings: Seq<Seq<char>>)
    requires
        forall|i: int, j: int|
            #![trigger strings[i], strings[j]]
            0 <= i < strings.len() && 0 <= j < strings.len() && content_hash(strings[i])
                == content_hash(strings[j]) ==> byte_len(strings[i]) == byte_len(strings[j]),
    ensures
        wasted_in(firsts(strings), strings) == bytes_in(strings) - bytes_in(firsts(strings)),
    decreases strings.len(),
{
    if strings.len() > 0 {
        let front = strings.drop_last();
        let s = strings.last();
        let n = strings.len() - 1;
        let f = firsts(front);
        assert forall|i: int, j: int|
            #![trigger front[i], front[j]]
            0 <= i < front.len() && 0 <= j < front.len() && content_hash(front[i]) == content_hash(
                front[j],
            ) implies byte_len(front[i]) == byte_len(front[j]) by {
            assert(strings[i] == front[i] && strings[j] == front[j]);
        }
        law_wasted_bytes_are_the_difference(front);
        lemma_firsts(front);
        lemma_first_of_hash(front, content_hash(s));
        assert(front.push(s) =~= strings);
        assert forall|i: int|
            #![trigger f[i]]
            0 <= i < f.len() && content_hash(f[i]) == content_hash(s) implies byte_len(f[i])
            == byte_len(s) by {
            let j = choose|j: int| 0 <= j < front.len() && front[j] == f[i];
            assert(strings[j] == f[i] && strings[n] == s);
        }
        lemma_wasted_step(f, front, s);
        if occurrences(front, content_hash(s)) == 0 {
            assert(firsts(strings) == f.push(s));
            assert(f.push(s).drop_last() =~= f);
            assert(occurrences(strings, content_hash(s)) == 1);
            assert(byte_len(s) * (1 - 1) == 0) by (nonlinear_arith);
        } else {
            assert(firsts(strings) == f);
        }
    }
}

/// The views of a list of statistics.
pub open spec fn views(top: Seq<DupStringStat>) -> Seq<DupView> {
    top.map_values(|s: DupStringStat| s@)
}

/// No offender is worse than one that is worse than it.
proof fn lemma_worse_one_way(a: DupView, b: DupView)
    ensures
        !(a.worse(b) && b.worse(a)),
        !a.worse(a),
{
    lemma_text_less_total(a.sample, b.sample);
    lemma_text_less_total(a.sample, a.sample);
}

/// Two lists with the worst first that hold the same are the same.
proof fn lemma_listing_unique(a: Seq<DupView>, b: Seq<DupView>)
    requires
        forall|i: int, j: int|
            #![trigger a[i], a[j]]
            0 <= i < j < a.len() ==> a[i].worse(a[j]),
        forall|i: int, j: int|
            #![trigger b[i], b[j]]
            0 <= i < j < b.len() ==> b[i].worse(b[j]),
        forall|x: DupView| #[trigger] a.contains(x) <==> b.contains(x),
    ensures
        a == b,
    decreases a.len(),
{
    if a.len() == 0 {
        if b.len() > 0 {
            assert(b.contains(b[0]));
            assert(a.contains(b[0]));
        }
        assert(a =~= b);
    } else {
        assert(a.contains(a[0]));
        assert(b.contains(a[0]));
        let m = a.len() - 1;
        let n = b.len() - 1;
        assert(a[m] == b[n]) by {
            assert(a.contains(a[m]));
            assert(b.contains(a[m]));
            assert(b.contains(b[n]));
            assert(a.contains(b[n]));
            let i = choose|i: int| 0 <= i < a.len() && a[i] == b[n];
            let j = choose|j: int| 0 <= j < b.len() && b[j] == a[m];
            if i < m {
                assert(a[i].worse(a[m]));
                if j < n {
                    assert(b[j].worse(b[n]));
                    lemma_worse_one_way(a[m], b[n]);
                }
            }
        }
        let c = a.drop_last();
        let d = b.drop_last();
        assert forall|x: DupView| #[trigger] c.contains(x) <==> d.contains(x) by {
            if c.contains(x) {
                let i = choose|i: int| 0 <= i < c.len() && c[i] == x;
                assert(a[i].worse(a[m]));
                lemma_worse_one_way(a[i], a[m]);
                assert(a.contains(x));
                let j = choose|j: int| 0 <= j < b.len() && b[j] == x;
                assert(d[j] == x);
            }
            if d.contains(x) {
                let i = choose|i: int| 0 <= i < d.len() && d[i] == x;
                assert(b[i].worse(b[n]));
                lemma_worse_one_way(b[i], b[n]);
                assert(b.contains(x) <==> a.contains(x));
                assert(b[i] == x);
                let j = choose|j: int| 0 <= j < a.len() && a[j] == x;
                assert(c[j] == x);
            }
        }
        lemma_listing_unique(c, d);
        assert(a =~= c.push(a[m]));
        assert(b =~= d.push(b[n]));
    }
}

/// What one of two lists of worst offenders holds, the other does.
proof fn lemma_top_same(
    strings: Seq<Seq<char>>,
    a: Seq<DupStringStat>,
    b: Seq<DupStringStat>,
    top_n: nat,
    i: int,
)
    requires
        is_top(strings, a, top_n),
        is_top(strings, b, top_n),
        0 <= i < a.len(),
    ensures
        is_listed(b, a[i]@),
{
    let d = a[i]@;
    if !is_listed(b, d) {
        let (x, y) = (views(a), views(b));
        if forall|j: int| 0 <= j < b.len() ==> is_listed(a, #[trigger] b[j]@) {
            lemma_strict_list(a);
            lemma_strict_list(b);
            assert forall|z: DupView| y.to_set().contains(z) implies x.to_set().remove(d).contains(
                z,
            ) by {
                let j = choose|j: int| 0 <= j < y.len() && y[j] == z;
                assert(is_listed(a, b[j]@));
                let k = choose|k: int| 0 <= k < a.len() && #[trigger] a[k]@ == b[j]@;
                assert(x[k] == z);
                if z == d {
                    assert(is_listed(b, d));
                }
            }
            x.unique_seq_to_set();
            y.unique_seq_to_set();
            assert(x[i] == d);
            assert(x.to_set().contains(d));
            vstd::set_lib::lemma_len_subset(y.to_set(), x.to_set().remove(d));
            assert(false);
        } else {
            let j = choose|j: int| 0 <= j < b.len() && !is_listed(a, #[trigger] b[j]@);
            let e = b[j]@;
            assert(is_duplicate(strings, e));
            assert(is_duplicate(strings, d));
            assert(a[i]@.worse(e));
            assert(b[j]@.worse(d));
            lemma_worse_one_way(d, e);
        }
    }
}

/// A list with the worst first holds nothing twice.
proof fn lemma_strict_list(a: Seq<DupStringStat>)
    requires
        forall|i: int, j: int|
            #![trigger a[i], a[j]]
            0 <= i < j < a.len() ==> a[i]@.worse(a[j]@),
    ensures
        views(a).no_duplicates(),
{
    let x = views(a);
    assert forall|i: int, j: int| 0 <= i < x.len() && 0 <= j < x.len() && i != j implies x[i]
        != x[j] by {
        lemma_worse_one_way(a[i]@, a[j]@);
        if i < j {
            assert(a[i]@.worse(a[j]@));
        } else {
            assert(a[j]@.worse(a[i]@));
        }
    }
}

/// Which strings are the worst offenders, and in which order they are listed, depends on
/// the strings and on how many are asked for alone.
pub proof fn law_top_is_deterministic(
    strings: Seq<Seq<char>>,
    a: Seq<DupStringStat>,
    b: Seq<DupStringStat>,
    top_n: nat,
)
    requires
        is_top(strings, a, top_n),
        is_top(strings, b, top_n),
    ensures
        views(a) == views(b),
{
    let (x, y) = (views(a), views(b));
    assert forall|i: int, j: int|
        #![trigger x[i], x[j]]
        0 <= i < j < x.len() implies x[i].worse(x[j]) by {
        assert(a[i]@.worse(a[j]@));
    }
    assert forall|i: int, j: int|
        #![trigger y[i], y[j]]
        0 <= i < j < y.len() implies y[i].worse(y[j]) by {
        assert(b[i]@.worse(b[j]@));
    }
    assert forall|z: DupView| #[trigger] x.contains(z) <==> y.contains(z) by {
        if x.contains(z) {
            let i = choose|i: int| 0 <= i < x.len() && x[i] == z;
            lemma_top_same(strings, a, b, top_n, i);
            let j = choose|j: int| 0 <= j < b.len() && #[trigger] b[j]@ == z;
            assert(y[j] == z);
        }
        if y.contains(z) {
            let i = choose|i: int| 0 <= i < y.len() && y[i] == z;
            lemma_top_same(strings, b, a, top_n, i);
            let j = choose|j: int| 0 <= j < a.len() && #[trigger] a[j]@ == z;
            assert(x[j] == z);
        }
    }
    lemma_listing_unique(x, y);
}

/// Whether different texts among the given ones have different hashes.
pub open spec fn hashes_tell_apart(strings: Seq<Seq<char>>) -> bool {
    forall|i: int, j: int|
        #![trigger strings[i], strings[j]]
        0 <= i < strings.len() && 0 <= j < strings.len() && content_hash(strings[i])
            == content_hash(strings[j]) ==> strings[i] == strings[j]
}

/// The texts of each heap.
pub open spec fn heap_texts(heaps: Seq<Vec<String>>) -> Seq<Seq<Seq<char>>> {
    heaps.map_values(|h: Vec<String>| texts(h@))
}

/// The lists one after the other.
spec fn joined(lists: Seq<Seq<Seq<char>>>) -> Seq<Seq<char>>
    decreases lists.len(),
{
    if lists.len() == 0 {
        Seq::empty()
    } else {
        joined(lists.drop_last()) + lists.last()
    }
}

/// The texts of all heaps are the texts of each, one heap after the other.
proof fn lemma_joined(heaps: Seq<Vec<String>>)
    ensures
        all_strings(heaps) == joined(heap_texts(heaps)),
    decreases heaps.len(),
{
    if heaps.len() > 0 {
        lemma_joined(heaps.drop_last());
        assert(heap_texts(heaps).drop_last() =~= heap_texts(heaps.drop_last()));
    }
}

/// Taking a list out takes its texts out.
proof fn lemma_joined_remove(lists: Seq<Seq<Seq<char>>>, j: int)
    requires
        0 <= j < lists.len(),
    ensures
        joined(lists).to_multiset() =~= joined(lists.remove(j)).to_multiset().add(
            lists[j].to_multiset(),
        ),
    decreases lists.len(),
{
    let front = lists.drop_last();
    vstd::seq_lib::lemma_multiset_commutative(joined(front), lists.last());
    if j == lists.len() - 1 {
        assert(lists.remove(j) =~= front);
    } else {
        lemma_joined_remove(front, j);
        assert(lists.remove(j).drop_last() =~= front.remove(j));
        assert(lists.remove(j).last() == lists.last());
        vstd::seq_lib::lemma_multiset_commutative(joined(front.remove(j)), lists.last());
    }
}

/// The same lists in another order hold the same texts.
proof fn lemma_joined_permuted(a: Seq<Seq<Seq<char>>>, b: Seq<Seq<Seq<char>>>)
    requires
        a.to_multiset() == b.to_multiset(),
    ensures
        joined(a).to_multiset() == joined(b).to_multiset(),
    decreases a.len(),
{
    a.to_multiset_ensures();
    b.to_multiset_ensures();
    if a.len() == 0 {
        assert(a =~= b);
    } else {
        let n = a.len() - 1;
        let x = a[n];
        assert(a.contains(x));
        assert(b.to_multiset().count(x) > 0);
        let j = choose|j: int| 0 <= j < b.len() && b[j] == x;
        assert(a.remove(n).to_multiset() == b.remove(j).to_multiset());
        lemma_joined_permuted(a.remove(n), b.remove(j));
        lemma_joined_remove(a, n);
        lemma_joined_remove(b, j);
    }
}

/// What taking a text out takes away.
proof fn lemma_remove_one(s: Seq<Seq<char>>, j: int, h: u64)
    requires
        0 <= j < s.len(),
    ensures
        bytes_in(s) == bytes_in(s.remove(j)) + byte_len(s[j]),
        occurrences(s, h) == occurrences(s.remove(j), h) + (if content_hash(s[j]) == h {
            1nat
        } else {
            0nat
        }),
    decreases s.len(),
{
    let front = s.drop_last();
    if j == s.len() - 1 {
        assert(s.remove(j) =~= front);
    } else {
        lemma_remove_one(front, j, h);
        assert(s.remove(j).drop_last() =~= front.remove(j));
        assert(s.remove(j).last() == s.last());
    }
}

/// The order of texts has no say in how many bytes they have and how often a hash occurs.
proof fn lemma_permuted(a: Seq<Seq<char>>, b: Seq<Seq<char>>, h: u64)
    requires
        a.to_multiset() == b.to_multiset(),
    ensures
        a.len() == b.len(),
        bytes_in(a) == bytes_in(b),
        occurrences(a, h) == occurrences(b, h),
    decreases a.len(),
{
    a.to_multiset_ensures();
    b.to_multiset_ensures();
    if a.len() > 0 {
        let n = a.len() - 1;
        let x = a[n];
        assert(a.contains(x));
        assert(b.to_multiset().count(x) > 0);
        let j = choose|j: int| 0 <= j < b.len() && b[j] == x;
        assert(a.remove(n).to_multiset() == b.remove(j).to_multiset());
        lemma_permuted(a.remove(n), b.remove(j), h);
        lemma_remove_one(a, n, h);
        lemma_remove_one(b, j, h);
    }
}

/// Lists without repeats that hold the same are the same but for their order.
proof fn lemma_same_members<A>(a: Seq<A>, b: Seq<A>)
    requires
        a.no_duplicates(),
        b.no_duplicates(),
        forall|x: A| #[trigger] a.contains(x) <==> b.contains(x),
    ensures
        a.to_multiset() == b.to_multiset(),
        a.len() == b.len(),
{
    a.to_multiset_ensures();
    b.to_multiset_ensures();
    a.lemma_multiset_has_no_duplicates();
    b.lemma_multiset_has_no_duplicates();
    assert forall|x: A| #[trigger] a.to_multiset().count(x) == b.to_multiset().count(x) by {
        assert(a.contains(x) <==> b.contains(x));
        assert(a.contains(x) <==> a.to_multiset().count(x) > 0);
        assert(b.contains(x) <==> b.to_multiset().count(x) > 0);
        if a.contains(x) {
            assert(a.to_multiset().contains(x));
            assert(b.to_multiset().contains(x));
        }
    }
    assert(a.to_multiset() =~= b.to_multiset());
}

/// Where hashes tell texts apart, the first texts of their hashes are all texts, each once.
proof fn lemma_firsts_are_all(strings: Seq<Seq<char>>)
    requires
        hashes_tell_apart(strings),
    ensures
        firsts(strings).no_duplicates(),
        forall|x: Seq<char>| #[trigger] firsts(strings).contains(x) <==> strings.contains(x),
{
    let all = firsts(strings);
    lemma_firsts(strings);
    assert forall|i: int, j: int| 0 <= i < all.len() && 0 <= j < all.len() && i != j implies all[i]
        != all[j] by {
        if i < j {
            assert(content_hash(all[i]) != content_hash(all[j]));
        } else {
            assert(content_hash(all[j]) != content_hash(all[i]));
        }
    }
    assert forall|x: Seq<char>| #[trigger] all.contains(x) <==> strings.contains(x) by {
        let h = content_hash(x);
        lemma_first_of_hash(strings, h);
        if all.contains(x) {
            let i = choose|i: int| 0 <= i < all.len() && all[i] == x;
            assert(strings.contains(all[i]));
        }
        if strings.contains(x) {
            let k = choose|k: int| 0 <= k < strings.len() && strings[k] == x;
            lemma_remove_one(strings, k, h);
            let i = choose|i: int| #![trigger all[i]] 0 <= i < all.len() && content_hash(all[i]) == h;
            assert(strings.contains(all[i]));
            let m = choose|m: int| 0 <= m < strings.len() && strings[m] == all[i];
            assert(strings[m] == strings[k]);
        }
    }
}

/// What the texts of a list amount to does not depend on their order, where hashes tell them
/// apart.
proof fn lemma_permuted_stats(a: Seq<Seq<char>>, b: Seq<Seq<char>>)
    requires
        a.to_multiset() == b.to_multiset(),
        hashes_tell_apart(a),
    ensures
        firsts(a).len() == firsts(b).len(),
        bytes_in(firsts(a)) == bytes_in(firsts(b)),
        forall|d: DupView| #[trigger] is_duplicate(a, d) == is_duplicate(b, d),
        duplicates(a).len() == duplicates(b).len(),
{
    a.to_multiset_ensures();
    b.to_multiset_ensures();
    assert forall|x: Seq<char>| #[trigger] a.contains(x) <==> b.contains(x) by {
        assert(a.contains(x) <==> a.to_multiset().count(x) > 0);
        assert(b.contains(x) <==> b.to_multiset().count(x) > 0);
    }
    assert(hashes_tell_apart(b)) by {
        assert forall|i: int, j: int|
            #![trigger b[i], b[j]]
            0 <= i < b.len() && 0 <= j < b.len() && content_hash(b[i]) == content_hash(
                b[j],
            ) implies b[i] == b[j] by {
            assert(b.contains(b[i]) && b.contains(b[j]));
            assert(a.contains(b[i]) && a.contains(b[j]));
            let k = choose|k: int| 0 <= k < a.len() && a[k] == b[i];
            let m = choose|m: int| 0 <= m < a.len() && a[m] == b[j];
            assert(a[k] == a[m]);
        }
    }
    lemma_firsts_are_all(a);
    lemma_firsts_are_all(b);
    let (f, g) = (firsts(a), firsts(b));
    assert forall|x: Seq<char>| #[trigger] f.contains(x) <==> g.contains(x) by {
        assert(a.contains(x) <==> b.contains(x));
        assert(g.contains(x) <==> b.contains(x));
    }
    lemma_same_members(f, g);
    lemma_permuted(f, g, 0);
    assert forall|d: DupView| #[trigger] is_duplicate(a, d) == is_duplicate(b, d) by {
        lemma_permuted(a, b, content_hash(d.sample));
        assert(f.contains(d.sample) <==> g.contains(d.sample));
    }
    let keep_a = |s: Seq<char>| occurrences(a, content_hash(s)) > 1;
    let keep_b = |s: Seq<char>| occurrences(b, content_hash(s)) > 1;
    let (p, q) = (duplicates(a), duplicates(b));
    lemma_filter_no_duplicates(f, keep_a);
    lemma_filter_no_duplicates(g, keep_b);
    assert forall|x: Seq<char>| #[trigger] p.contains(x) <==> q.contains(x) by {
        lemma_permuted(a, b, content_hash(x));
        assert(f.contains(x) <==> g.contains(x));
        if p.contains(x) {
            lemma_filter_meets(f, keep_a, x);
            lemma_filter_keeps(g, keep_b, x);
        }
        if q.contains(x) {
            lemma_filter_meets(g, keep_b, x);
            lemma_filter_keeps(f, keep_a, x);
        }
    }
    lemma_same_members(p, q);
}

/// What is kept is a member and was to be kept.
proof fn lemma_filter_meets<A>(s: Seq<A>, keep: spec_fn(A) -> bool, x: A)
    requires
        s.filter(keep).contains(x),
    ensures
        s.contains(x),
        keep(x),
    decreases s.len(),
{
    reveal(Seq::filter);
    if s.len() > 0 {
        let front = s.drop_last();
        let j = choose|j: int| 0 <= j < s.filter(keep).len() && s.filter(keep)[j] == x;
        if j < front.filter(keep).len() {
            assert(front.filter(keep)[j] == x);
            lemma_filter_meets(front, keep, x);
            let i = choose|i: int| 0 <= i < front.len() && front[i] == x;
            assert(s[i] == x);
        } else {
            assert(s[s.len() - 1] == x);
        }
    }
}

/// The order of the heaps has no say: heaps with the same strings in another order give the
/// same statistics, entry by entry. Different strings with one hash would spoil that: which of
/// them comes first then stands for both.
pub proof fn law_the_order_of_heaps_has_no_say(
    heaps: Seq<Vec<String>>,
    reordered: Seq<Vec<String>>,
    top_n: nat,
    stats: DupStringStats,
    other: DupStringStats,
)
    requires
        heap_texts(heaps).to_multiset() == heap_texts(reordered).to_multiset(),
        hashes_tell_apart(all_strings(heaps)),
        is_stats(heaps, top_n, stats),
        is_stats(reordered, top_n, other),
    ensures
        other.heaps == stats.heaps,
        other.total_strings == stats.total_strings,
        other.total_bytes == stats.total_bytes,
        other.distinct_strings == stats.distinct_strings,
        other.distinct_bytes == stats.distinct_bytes,
        other.top@.len() == stats.top@.len(),
        forall|i: int|
            #![trigger other.top@[i]]
            0 <= i < stats.top@.len() ==> other.top@[i]@ == stats.top@[i]@ && other.top@[i].len
                == stats.top@[i].len,
{
    let (a, b) = (all_strings(heaps), all_strings(reordered));
    lemma_joined(heaps);
    lemma_joined(reordered);
    lemma_joined_permuted(heap_texts(heaps), heap_texts(reordered));
    heap_texts(heaps).to_multiset_ensures();
    heap_texts(reordered).to_multiset_ensures();
    lemma_permuted(a, b, 0);
    lemma_permuted_stats(a, b);
    let (p, q) = (stats.top@, other.top@);
    assert(is_top(a, q, top_n)) by {
        assert forall|i: int| #![trigger q[i]] 0 <= i < q.len() implies is_duplicate(a, q[i]@)
            && q[i].len == byte_len(q[i].sample@) by {
            assert(is_duplicate(a, q[i]@) == is_duplicate(b, q[i]@));
        }
        assert forall|d: DupView, i: int|
            #![trigger is_duplicate(a, d), q[i]]
            is_duplicate(a, d) && !is_listed(q, d) && 0 <= i < q.len() implies q[i]@.worse(d) by {
            assert(is_duplicate(b, d));
        }
    }
    law_top_is_deterministic(a, p, q, top_n);
    assert forall|i: int| #![trigger q[i]] 0 <= i < p.len() implies q[i]@ == p[i]@ && q[i].len
        == p[i].len by {
        assert(views(p)[i] == views(q)[i]);
        assert(p[i].len == byte_len(p[i].sample@));
        assert(q[i].len == byte_len(q[i].sample@));
        assert(p[i].sample@ == p[i]@.sample && q[i].sample@ == q[i]@.sample);
    }
}

/// How often a text occurs.
pub open spec fn times(strings: Seq<Seq<char>>, s: Seq<char>) -> nat {
    strings.to_multiset().count(s)
}

/// Where no other text has its hash, a text occurs as often as its hash.
proof fn lemma_times(strings: Seq<Seq<char>>, s: Seq<char>)
    requires
        forall|i: int|
            #![trigger strings[i]]
            0 <= i < strings.len() && content_hash(strings[i]) == content_hash(s) ==> strings[i]
                == s,
    ensures
        occurrences(strings, content_hash(s)) == times(strings, s),
    decreases strings.len(),
{
    if strings.len() == 0 {
        strings.to_multiset_ensures();
        assert(!strings.contains(s));
    } else {
        let front = strings.drop_last();
        let last = strings.last();
        assert forall|i: int|
            #![trigger front[i]]
            0 <= i < front.len() && content_hash(front[i]) == content_hash(s) implies front[i]
            == s by {
            assert(strings[i] == front[i]);
        }
        lemma_times(front, s);
        front.to_multiset_ensures();
        assert(front.push(last) =~= strings);
        assert(strings[strings.len() - 1] == last);
    }
}

/// Where hashes tell texts apart, each text occurs as often as its hash.
proof fn lemma_times_of_member(strings: Seq<Seq<char>>, s: Seq<char>)
    requires
        hashes_tell_apart(strings),
        strings.contains(s),
    ensures
        occurrences(strings, content_hash(s)) == times(strings, s),
{
    let k = choose|k: int| 0 <= k < strings.len() && strings[k] == s;
    assert forall|i: int|
        #![trigger strings[i]]
        0 <= i < strings.len() && content_hash(strings[i]) == content_hash(s) implies strings[i]
        == s by {
        assert(strings[i] == strings[k]);
    }
    lemma_times(strings, s);
}

/// The worst offenders are listed in descending order of the bytes that their copies waste: the
/// length times the copies but one. Of two that waste the same, the one that comes first in the
/// order of text is listed first.
pub proof fn law_the_most_wasteful_are_listed_first(
    heaps: Seq<Vec<String>>,
    top_n: nat,
    stats: DupStringStats,
    i: int,
    j: int,
)
    requires
        is_stats(heaps, top_n, stats),
        0 <= i < j < stats.top@.len(),
    ensures
        stats.top@[i].len * (stats.top@[i].copies - 1) >= stats.top@[j].len * (stats.top@[j].copies
            - 1),
        stats.top@[i].len * (stats.top@[i].copies - 1) == stats.top@[j].len * (stats.top@[j].copies
            - 1) ==> text_less(stats.top@[i].sample@, stats.top@[j].sample@),
{
    let (a, b) = (stats.top@[i], stats.top@[j]);
    assert(a.len == byte_len(a.sample@));
    assert(b.len == byte_len(b.sample@));
    assert(a@.worse(b@));
}

/// A string that occurs more than once and is not listed wastes no more than any that is; and one
/// is left out only where as many are listed as were asked for.
pub proof fn law_nothing_left_out_wastes_more(
    heaps: Seq<Vec<String>>,
    top_n: nat,
    stats: DupStringStats,
    s: Seq<char>,
    i: int,
)
    requires
        is_stats(heaps, top_n, stats),
        hashes_tell_apart(all_strings(heaps)),
        times(all_strings(heaps), s) >= 2,
        forall|j: int|
            #![trigger stats.top@[j]]
            0 <= j < stats.top@.len() ==> stats.top@[j].sample@ != s,
    ensures
        stats.top@.len() == top_n,
        0 <= i < stats.top@.len() ==> stats.top@[i].len * (stats.top@[i].copies - 1) >= byte_len(s)
            * (times(all_strings(heaps), s) - 1),
{
    let strings = all_strings(heaps);
    strings.to_multiset_ensures();
    assert(strings.contains(s));
    lemma_times_of_member(strings, s);
    lemma_firsts_are_all(strings);
    let d = DupView { sample: s, copies: times(strings, s) };
    assert(firsts(strings).contains(s));
    assert(is_duplicate(strings, d));
    assert(!is_listed(stats.top@, d)) by {
        if is_listed(stats.top@, d) {
            let j = choose|j: int| 0 <= j < stats.top@.len() && #[trigger] stats.top@[j]@ == d;
            assert(stats.top@[j].sample@ == s);
        }
    }
    if 0 <= i < stats.top@.len() {
        let t = stats.top@[i];
        assert(t.len == byte_len(t.sample@));
        assert(t@.worse(d));
    }
    if stats.top@.len() < top_n {
        lemma_all_listed(strings, stats.top@, top_n, d);
    }
}

/// A list that holds as many as there are holds all.
proof fn lemma_all_listed(
    strings: Seq<Seq<char>>,
    top: Seq<DupStringStat>,
    top_n: nat,
    d: DupView,
)
    requires
        is_top(strings, top, top_n),
        hashes_tell_apart(strings),
        top.len() < top_n,
        is_duplicate(strings, d),
    ensures
        is_listed(top, d),
{
    let kept = duplicates(strings);
    let keep = |s: Seq<char>| occurrences(strings, content_hash(s)) > 1;
    lemma_firsts_are_all(strings);
    lemma_filter_no_duplicates(firsts(strings), keep);
    lemma_filter_keeps(firsts(strings), keep, d.sample);
    let names = top.map_values(|t: DupStringStat| t.sample@);
    lemma_strict_list(top);
    assert(names.no_duplicates()) by {
        assert forall|i: int, j: int| 0 <= i < names.len() && 0 <= j < names.len() && i
            != j implies names[i] != names[j] by {
            assert(is_duplicate(strings, top[i]@) && is_duplicate(strings, top[j]@));
            assert(views(top)[i] != views(top)[j]);
            if names[i] == names[j] {
                assert(top[i]@ == top[j]@);
            }
        }
    }
    if !names.contains(d.sample) {
        assert forall|x: Seq<char>| names.to_set().contains(x) implies kept.to_set().remove(
            d.sample,
        ).contains(x) by {
            let i = choose|i: int| 0 <= i < names.len() && names[i] == x;
            assert(names.contains(x));
            assert(is_duplicate(strings, top[i]@));
            lemma_filter_keeps(firsts(strings), keep, x);
        }
        names.unique_seq_to_set();
        kept.unique_seq_to_set();
        vstd::set_lib::lemma_len_subset(names.to_set(), kept.to_set().remove(d.sample));
        assert(false);
    }
    let i = choose|i: int| 0 <= i < names.len() && names[i] == d.sample;
    assert(is_duplicate(strings, top[i]@));
    assert(top[i]@ == d);
}

/// What is listed of a string is so: it occurs in the heaps as often as is said, more than once,
/// and has as many bytes as is said.
pub proof fn law_what_is_listed_is_so(
    heaps: Seq<Vec<String>>,
    top_n: nat,
    stats: DupStringStats,
    i: int,
)
    requires
        is_stats(heaps, top_n, stats),
        hashes_tell_apart(all_strings(heaps)),
        0 <= i < stats.top@.len(),
    ensures
        stats.top@[i].copies == times(all_strings(heaps), stats.top@[i].sample@),
        stats.top@[i].copies >= 2,
        stats.top@[i].len == encode_utf8(stats.top@[i].sample@).len(),
        stats.top@.len() <= top_n,
{
    let strings = all_strings(heaps);
    let t = stats.top@[i];
    assert(is_duplicate(strings, t@));
    lemma_firsts_are_all(strings);
    assert(strings.contains(t.sample@));
    lemma_times_of_member(strings, t.sample@);
}

/// The distinct strings are the strings of the heaps, each once.
pub proof fn law_the_distinct_are_the_strings_once(
    heaps: Seq<Vec<String>>,
    top_n: nat,
    stats: DupStringStats,
)
    requires
        is_stats(heaps, top_n, stats),
        hashes_tell_apart(all_strings(heaps)),
    ensures
        stats.distinct_strings == all_strings(heaps).to_set().len(),
        forall|once: Seq<Seq<char>>|
            once.no_duplicates() && once.to_set() == all_strings(heaps).to_set()
                ==> stats.distinct_bytes == #[trigger] bytes_in(once),
{
    let strings = all_strings(heaps);
    let f = firsts(strings);
    lemma_firsts_are_all(strings);
    f.unique_seq_to_set();
    assert(f.to_set() =~= strings.to_set()) by {
        assert forall|x: Seq<char>| f.to_set().contains(x) <==> strings.to_set().contains(x) by {
            assert(f.contains(x) <==> strings.contains(x));
        }
    }
    assert forall|once: Seq<Seq<char>>|
        once.no_duplicates() && once.to_set() == strings.to_set() implies stats.distinct_bytes
        == #[trigger] bytes_in(once) by {
        assert forall|x: Seq<char>| #[trigger] f.contains(x) <==> once.contains(x) by {
            assert(once.to_set().contains(x) <==> strings.to_set().contains(x));
        }
        lemma_same_members(f, once);
        lemma_permuted(f, once, 0);
    }
}

/// The totals add up over the heaps: one more heap adds one heap, its strings and their bytes.
pub proof fn law_totals_add_up(
    heaps: Seq<Vec<String>>,
    heap: Vec<String>,
    a: Seq<Seq<char>>,
    b: Seq<Seq<char>>,
    s: Seq<char>,
    before: DupStringStats,
    after: DupStringStats,
    top_n: nat,
)
    ensures
        is_stats(heaps, top_n, before) && is_stats(heaps.push(heap), top_n, after) ==> after.heaps
            == before.heaps + 1 && after.total_strings == before.total_strings + heap@.len()
            && after.total_bytes == before.total_bytes + bytes_in(texts(heap@)),
        is_stats(Seq::empty(), top_n, before) ==> before.heaps == 0 && before.total_strings == 0
            && before.total_bytes == 0 && before.distinct_strings == 0 && before.distinct_bytes == 0
            && before.top@.len() == 0,
        all_strings(heaps.push(heap)).len() == all_strings(heaps).len() + heap@.len(),
        bytes_in(all_strings(heaps.push(heap))) == bytes_in(all_strings(heaps)) + bytes_in(
            texts(heap@),
        ),
        bytes_in(a + b) == bytes_in(a) + bytes_in(b),
        bytes_in(seq![s]) == encode_utf8(s).len(),
{
    assert(heaps.push(heap).drop_last() =~= heaps);
    lemma_bytes_concat(all_strings(heaps), texts(heap@));
    lemma_bytes_concat(a, b);
    assert(seq![s].drop_last() =~= Seq::empty());
    assert(bytes_in(Seq::<Seq<char>>::empty()) == 0);
    if is_stats(Seq::empty(), top_n, before) {
        let none = all_strings(Seq::<Vec<String>>::empty());
        assert(none =~= Seq::<Seq<char>>::empty());
        assert(firsts(none) =~= Seq::<Seq<char>>::empty());
        reveal(Seq::filter);
        assert(duplicates(none).len() == 0);
    }
}

} // verus!
