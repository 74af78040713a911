//! Ranking of search results.

use vstd::hash_set::StringHashSet;
use vstd::prelude::*;

use crate::dictionary::{Dictionary, EntryView};

verus! {

/// The most results of each kind that a search gives.
pub const MAX_RESULTS: usize = 100;

/// Takes positions from `from` in order, leaving out entries whose character was seen before, until
/// there are as many as a search gives. The result is what was taken and what was then seen.
pub open spec fn pick(
    es: Seq<EntryView>,
    out: Seq<usize>,
    seen: Set<Seq<char>>,
    from: Seq<usize>,
) -> (Seq<usize>, Set<Seq<char>>)
    decreases from.len(),
{
    if from.len() == 0 || out.len() >= MAX_RESULTS {
        (out, seen)
    } else {
        let word = es[from[0] as int].word;
        if seen.contains(word) {
            pick(es, out, seen, from.skip(1))
        } else {
            pick(es, out.push(from[0]), seen.insert(word), from.skip(1))
        }
    }
}

/// `sorted` lists the positions of `order` by the number of components of their entries, those with
/// equally many in the order that they had.
pub open spec fn sorted_by_size(
    es: Seq<EntryView>,
    order: Seq<usize>,
    sorted: Seq<usize>,
) -> bool {
    &&& forall|i: int, j: int|
        0 <= i < j < sorted.len() ==> es[#[trigger] sorted[i] as int].parts.len()
            <= es[#[trigger] sorted[j] as int].parts.len()
    &&& forall|n: nat| #[trigger] of_size(es, sorted, n) == of_size(es, order, n)
}

/// The positions of `s` whose entries have `n` components.
pub open spec fn of_size(es: Seq<EntryView>, s: Seq<usize>, n: nat) -> Seq<usize> {
    s.filter(|i: usize| es[i as int].parts.len() == n)
}

/// `r` gives the positions of `order` by the number of components, each character once, and no more
/// than a search gives.
pub open spec fn ranked(es: Seq<EntryView>, order: Seq<usize>, r: Seq<usize>) -> bool {
    exists|sorted: Seq<usize>| #[trigger]
        sorted_by_size(es, order, sorted) && r == pick(es, seq![], Set::empty(), sorted).0
}

/// Nothing more is taken once there are as many as a search gives.
pub proof fn lemma_pick_full(
    es: Seq<EntryView>,
    out: Seq<usize>,
    seen: Set<Seq<char>>,
    from: Seq<usize>,
)
    requires
        out.len() >= MAX_RESULTS,
    ensures
        pick(es, out, seen, from) == (out, seen),
{
}

/// Taking from two lists, one after the other.
pub proof fn lemma_pick_append(
    es: Seq<EntryView>,
    out: Seq<usize>,
    seen: Set<Seq<char>>,
    a: Seq<usize>,
    b: Seq<usize>,
)
    ensures
        pick(es, out, seen, a + b) == pick(
            es,
            pick(es, out, seen, a).0,
            pick(es, out, seen, a).1,
            b,
        ),
    decreases a.len(),
{
    if a.len() == 0 {
        assert(a + b =~= b);
    } else if out.len() >= MAX_RESULTS {
        lemma_pick_full(es, out, seen, b);
    } else {
        assert((a + b).skip(1) =~= a.skip(1) + b);
        let word = es[a[0] as int].word;
        if seen.contains(word) {
            lemma_pick_append(es, out, seen, a.skip(1), b);
        } else {
            lemma_pick_append(es, out.push(a[0]), seen.insert(word), a.skip(1), b);
        }
    }
}

/// Filtering by one size what was filtered by another.
proof fn lemma_of_size_twice(es: Seq<EntryView>, s: Seq<usize>, m: nat, n: nat)
    ensures
        m == n ==> of_size(es, of_size(es, s, m), n) == of_size(es, s, m),
        m != n ==> of_size(es, of_size(es, s, m), n) == Seq::<usize>::empty(),
    decreases s.len(),
{
    let p = |i: usize| es[i as int].parts.len() == n;
    reveal(Seq::filter);
    if s.len() > 0 {
        let rest = s.drop_last();
        lemma_of_size_twice(es, rest, m, n);
        of_size(es, rest, m).lemma_filter_push(s.last(), p);
    }
}

/// What is filtered by a size has that size.
proof fn lemma_of_size(es: Seq<EntryView>, s: Seq<usize>, n: nat)
    ensures
        forall|i: int|
            0 <= i < of_size(es, s, n).len() ==> es[#[trigger] of_size(
                es,
                s,
                n,
            )[i] as int].parts.len() == n,
{
    let p = |i: usize| es[i as int].parts.len() == n;
    assert forall|i: int| 0 <= i < of_size(es, s, n).len() implies es[#[trigger] of_size(
        es,
        s,
        n,
    )[i] as int].parts.len() == n by {
        s.lemma_filter_pred(p, i);
    }
}

/// `out` holds the positions of `s` with fewer than `bound` components, by size.
spec fn gathered(es: Seq<EntryView>, s: Seq<usize>, out: Seq<usize>, bound: nat) -> bool {
    &&& forall|i: int, j: int|
        0 <= i < j < out.len() ==> es[#[trigger] out[i] as int].parts.len()
            <= es[#[trigger] out[j] as int].parts.len()
    &&& forall|j: int| 0 <= j < out.len() ==> es[#[trigger] out[j] as int].parts.len() < bound
    &&& forall|n: nat| #[trigger]
        of_size(es, out, n) == if n < bound {
            of_size(es, s, n)
        } else {
            seq![]
        }
}

/// Gathering the positions of the next size.
proof fn lemma_gather(es: Seq<EntryView>, s: Seq<usize>, out: Seq<usize>, bound: nat)
    requires
        gathered(es, s, out, bound),
    ensures
        gathered(es, s, out + of_size(es, s, bound), bound + 1),
{
    let found = of_size(es, s, bound);
    let all = out + found;
    lemma_of_size(es, s, bound);
    assert forall|n: nat| #[trigger]
        of_size(es, all, n) == if n < bound + 1 {
            of_size(es, s, n)
        } else {
            seq![]
        } by {
        Seq::filter_distributes_over_add(
            out,
            found,
            |i: usize| es[i as int].parts.len() == n,
        );
        lemma_of_size_twice(es, s, bound, n);
        assert(of_size(es, all, n) =~= of_size(es, out, n) + of_size(es, found, n));
    }
}

/// Nothing ranked is nothing.
pub proof fn lemma_ranked_empty(es: Seq<EntryView>)
    ensures
        ranked(es, seq![], seq![]),
{
    assert(sorted_by_size(es, seq![], seq![]));
}

impl Dictionary {
    /// Appends the positions of `order` whose entries have `size` components.
    fn append_of_size(&self, order: &Vec<usize>, size: usize, out: &mut Vec<usize>)
        requires
            forall|i: int| 0 <= i < order@.len() ==> order@[i] < self.list().len(),
        ensures
            final(out)@ == old(out)@ + of_size(self.list(), order@, size as nat),
    {
        let ghost es = self.list();
        let ghost s = order@;
        let ghost before = out@;
        let ghost p = |i: usize| es[i as int].parts.len() == size as nat;
        proof {
            reveal(Seq::filter);
            assert(before + s.take(0).filter(p) =~= before);
        }
        for i in 0..order.len()
            invariant
                es == self.list(),
                s == order@,
                forall|j: int| 0 <= j < s.len() ==> s[j] < es.len(),
                p == (|i: usize| es[i as int].parts.len() == size as nat),
                out@ == before + s.take(i as int).filter(p),
        {
            let index: usize = order[i];
            proof {
                let t = s.take(i as int);
                t.lemma_filter_push(index, p);
                assert(t.push(index) =~= s.take(i + 1));
                assert(es[index as int].parts.len() == self.entries@[index as int].parts@.len());
                assert((before + t.filter(p)).push(index) =~= before + t.filter(p).push(index));
            }
            if self.entries[index].parts.len() == size {
                out.push(index);
            }
        }
        assert(s.take(s.len() as int) =~= s);
    }

    /// The positions of `order` by the number of components of their entries.
    fn sort_by_size(&self, order: &Vec<usize>) -> (r: Vec<usize>)
        requires
            forall|i: int| 0 <= i < order@.len() ==> order@[i] < self.list().len(),
        ensures
            sorted_by_size(self.list(), order@, r@),
    {
        let ghost es = self.list();
        let ghost s = order@;
        let mut largest: usize = 0;
        for i in 0..order.len()
            invariant
                es == self.list(),
                s == order@,
                forall|j: int| 0 <= j < s.len() ==> s[j] < es.len(),
                forall|j: int| 0 <= j < i ==> es[#[trigger] s[j] as int].parts.len() <= largest,
        {
            let size: usize = self.entries[order[i]].parts.len();
            assert(es[s[i as int] as int].parts.len() == size);
            if size > largest {
                largest = size;
            }
        }
        let mut out: Vec<usize> = Vec::new();
        assert(gathered(es, s, out@, 0)) by {
            reveal(Seq::filter);
        }
        for size in 0..largest
            invariant
                es == self.list(),
                s == order@,
                forall|j: int| 0 <= j < s.len() ==> s[j] < es.len(),
                gathered(es, s, out@, size as nat),
        {
            proof {
                lemma_gather(es, s, out@, size as nat);
            }
            self.append_of_size(order, size, &mut out);
        }
        proof {
            lemma_gather(es, s, out@, largest as nat);
        }
        self.append_of_size(order, largest, &mut out);
        assert forall|n: nat| #[trigger] of_size(es, out@, n) == of_size(es, s, n) by {
            if n > largest {
                let p = |i: usize| es[i as int].parts.len() == n;
                s.lemma_all_neg_filter_empty(p);
            }
        }
        out
    }

    /// The positions of `order` by the number of components, each character once, and no more than
    /// a search gives.
    pub fn rank(&self, order: &Vec<usize>) -> (r: Vec<usize>)
        requires
            forall|i: int| 0 <= i < order@.len() ==> order@[i] < self.list().len(),
        ensures
            ranked(self.list(), order@, r@),
    {
        let sorted = self.sort_by_size(order);
        let ghost es = self.list();
        let ghost s = sorted@;
        let mut out: Vec<usize> = Vec::new();
        let mut seen = StringHashSet::new();
        let ghost wanted = pick(es, seq![], Set::empty(), s);
        proof {
            assert(s.skip(0) =~= s);
            assert forall|i: int| 0 <= i < s.len() implies s[i] < es.len() by {
                let n = es[s[i] as int].parts.len();
                let p = |i: usize| es[i as int].parts.len() == n;
                s.lemma_filter_contains(p, i);
                assert(of_size(es, s, n).contains(s[i]));
                let j = choose|j: int|
                    0 <= j < of_size(es, order@, n).len() && of_size(es, order@, n)[j] == s[i];
                order@.lemma_filter_contains_rev(p, s[i]);
            }
        }
        for i in 0..sorted.len()
            invariant
                es == self.list(),
                s == sorted@,
                forall|j: int| 0 <= j < s.len() ==> s[j] < es.len(),
                pick(es, out@, seen@, s.skip(i as int)) == wanted,
                wanted == pick(es, seq![], Set::empty(), s),
                sorted_by_size(es, order@, s),
        {
            let index: usize = sorted[i];
            proof {
                assert(s.skip(i as int)[0] == index);
                assert(s.skip(i as int).skip(1) =~= s.skip(i + 1));
                assert(es[index as int].word == self.entries@[index as int].word@);
            }
            if out.len() >= MAX_RESULTS {
                return out;
            }
            let ghost seen1 = seen@;
            if seen.insert(self.entries[index].word.clone()) {
                out.push(index);
            } else {
                assert(seen@ =~= seen1);
            }
        }
        out
    }
}

} // verus!
