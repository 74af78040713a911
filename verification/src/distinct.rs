//! Texts without repetition.

use vstd::prelude::*;

use crate::text::{holds_text, push_text};

verus! {

/// The first `n` different texts of `s`, in the order in which they first occur.
pub open spec fn first_distinct(s: Seq<Seq<char>>, n: nat) -> Seq<Seq<char>> {
    let all = s.remove_duplicates(seq![]);
    if all.len() <= n {
        all
    } else {
        all.take(n as int)
    }
}

proof fn lemma_remove_duplicates_extends(s: Seq<Seq<char>>, seen: Seq<Seq<char>>)
    ensures
        seen.is_prefix_of(s.remove_duplicates(seen)),
    decreases s.len(),
{
    let r = s.remove_duplicates(seen);
    if s.len() > 0 {
        if seen.contains(s[0]) {
            lemma_remove_duplicates_extends(s.skip(1), seen);
        } else {
            let longer = seen + seq![s[0]];
            lemma_remove_duplicates_extends(s.skip(1), longer);
            assert forall|i: int| 0 <= i < seen.len() implies seen[i] == r[i] by {
                assert(r.subrange(0, longer.len() as int)[i] == longer[i]);
            }
        }
    }
    assert(seen =~= r.subrange(0, seen.len() as int));
}

proof fn lemma_remove_duplicates_distinct(s: Seq<Seq<char>>, seen: Seq<Seq<char>>)
    requires
        seen.no_duplicates(),
    ensures
        s.remove_duplicates(seen).no_duplicates(),
    decreases s.len(),
{
    if s.len() > 0 {
        if seen.contains(s[0]) {
            lemma_remove_duplicates_distinct(s.skip(1), seen);
        } else {
            lemma_remove_duplicates_distinct(s.skip(1), seen + seq![s[0]]);
        }
    }
}

/// The first different texts are texts of `s`, at most `n` and each once. The first text of `s` is
/// the first of them, and where they are fewer than `n`, they are all that `s` has.
pub proof fn law_first_distinct(s: Seq<Seq<char>>, n: nat)
    ensures
        first_distinct(s, n).len() <= n,
        first_distinct(s, n).no_duplicates(),
        forall|x: Seq<char>| #[trigger] first_distinct(s, n).contains(x) ==> s.contains(x),
        first_distinct(s, n).len() < n ==> forall|x: Seq<char>| #[trigger]
            s.contains(x) ==> first_distinct(s, n).contains(x),
        s.len() > 0 && n > 0 ==> first_distinct(s, n).len() > 0 && first_distinct(s, n)[0] == s[0],
{
    let none = Seq::<Seq<char>>::empty();
    let all = s.remove_duplicates(none);
    s.lemma_remove_duplicates_properties(none);
    assert(s + none =~= s);
    lemma_remove_duplicates_distinct(s, none);
    assert forall|x: Seq<char>| #[trigger] first_distinct(s, n).contains(x) implies s.contains(
        x,
    ) by {
        let i = choose|i: int| 0 <= i < first_distinct(s, n).len() && first_distinct(s, n)[i] == x;
        assert(all[i] == x);
        assert(all.contains(x));
    }
    if s.len() > 0 {
        assert(none + seq![s[0]] =~= seq![s[0]]);
        lemma_remove_duplicates_extends(s.skip(1), seq![s[0]]);
        assert(all.subrange(0, 1)[0] == s[0]);
    }
}

/// Once there are `n` different texts, what follows adds nothing.
pub proof fn lemma_first_distinct_full(a: Seq<Seq<char>>, b: Seq<Seq<char>>, n: nat)
    requires
        a.remove_duplicates(seq![]).len() >= n,
    ensures
        first_distinct(a + b, n) == first_distinct(a, n),
{
    let none = Seq::<Seq<char>>::empty();
    let got = a.remove_duplicates(none);
    let all = (a + b).remove_duplicates(none);
    if b.len() == 0 {
        assert(a + b =~= a);
    } else {
        (a + b).lemma_remove_duplicates_append_index(a.len() as int, none);
        assert((a + b).take(a.len() as int) =~= a);
        assert((a + b).skip(a.len() as int) =~= b);
        lemma_remove_duplicates_extends(b, got);
        assert forall|i: int| 0 <= i < got.len() implies got[i] == all[i] by {
            assert(all.subrange(0, got.len() as int)[i] == got[i]);
        }
        assert(first_distinct(a + b, n) =~= first_distinct(a, n));
    }
}

/// Appends `s` to the different texts of `done`, unless it is among them.
pub(crate) fn add_distinct(out: &mut Vec<String>, s: &String, Ghost(done): Ghost<Seq<Seq<char>>>)
    requires
        old(out).deep_view() == done.remove_duplicates(seq![]),
    ensures
        final(out).deep_view() == done.push(s@).remove_duplicates(seq![]),
        final(out)@.len() <= old(out)@.len() + 1,
{
    proof {
        let none = Seq::<Seq<char>>::empty();
        done.lemma_remove_duplicates_append(s@, none);
        done.lemma_remove_duplicates_properties(none);
        assert(done + none =~= done);
        assert(done + seq![s@] =~= done.push(s@));
    }
    let ghost o = out.deep_view();
    if !holds_text(out, s) {
        push_text(out, s.clone());
        assert(o + seq![s@] =~= o.push(s@));
    }
    assert(out.deep_view().len() == out@.len());
}

} // verus!
