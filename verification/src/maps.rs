//! Maps keyed by circuit numbers: their keys as a list, and sums over them.

use std::collections::{HashMap, VecDeque};
use vstd::prelude::*;

verus! {

/// The sum of `f` over the members of a finite set.
pub open spec fn total<A>(s: Set<A>, f: spec_fn(A) -> int) -> int
    decreases s.len(),
    when s.finite()
{
    if s.len() == 0 {
        0
    } else {
        let x = s.choose();
        f(x) + total(s.remove(x), f)
    }
}

/// A member can be taken out of a sum.
pub proof fn lemma_total_remove<A>(s: Set<A>, x: A, f: spec_fn(A) -> int)
    requires
        s.finite(),
        s.contains(x),
    ensures
        total(s, f) == f(x) + total(s.remove(x), f),
    decreases s.len(),
{
    let y = s.choose();
    if s.len() == 0 {
        assert(s =~= Set::<A>::empty());
    }
    if x != y {
        lemma_total_remove(s.remove(y), x, f);
        lemma_total_remove(s.remove(x), y, f);
        assert(s.remove(y).remove(x) =~= s.remove(x).remove(y));
    }
}

/// A new member adds its value to a sum.
pub proof fn lemma_total_insert<A>(s: Set<A>, x: A, f: spec_fn(A) -> int)
    requires
        s.finite(),
        !s.contains(x),
    ensures
        total(s.insert(x), f) == f(x) + total(s, f),
{
    lemma_total_remove(s.insert(x), x, f);
    assert(s.insert(x).remove(x) =~= s);
}

/// A sum depends only on the values at the members.
pub proof fn lemma_total_same<A>(s: Set<A>, f: spec_fn(A) -> int, g: spec_fn(A) -> int)
    requires
        s.finite(),
        forall|x: A| s.contains(x) ==> #[trigger] f(x) == g(x),
    ensures
        total(s, f) == total(s, g),
    decreases s.len(),
{
    if s.len() > 0 {
        lemma_total_same(s.remove(s.choose()), f, g);
    }
}

/// A part of a sum of naturals is no more than the whole.
pub proof fn lemma_total_part<A>(part: Set<A>, whole: Set<A>, f: spec_fn(A) -> int)
    requires
        whole.finite(),
        part.subset_of(whole),
        forall|x: A| #[trigger] f(x) >= 0,
    ensures
        part.finite(),
        0 <= total(part, f) <= total(whole, f),
    decreases whole.len(),
{
    vstd::set_lib::lemma_set_subset_finite(whole, part);
    if whole.len() == 0 {
        assert(part =~= whole);
    } else {
        let x = whole.choose();
        lemma_total_part(part.remove(x), whole.remove(x), f);
        if part.contains(x) {
            lemma_total_remove(part, x, f);
        } else {
            assert(part.remove(x) =~= part);
        }
    }
}

/// What is left of a list is what is in it and fits.
pub proof fn lemma_filter_members<A>(s: Seq<A>, p: spec_fn(A) -> bool, x: A)
    ensures
        s.filter(p).contains(x) <==> s.contains(x) && p(x),
{
    broadcast use vstd::seq_lib::group_filter_ensures;

    let r = s.filter(p);
    if r.contains(x) {
        let i = choose|i: int| 0 <= i < r.len() && r[i] == x;
        assert(p(r[i]));
        s.lemma_filter_contains_rev(p, x);
    }
    if s.contains(x) && p(x) {
        let i = choose|i: int| 0 <= i < s.len() && s[i] == x;
        assert(r.contains(s[i]));
    }
}

/// The keys of `m`, each once, in no particular order.
pub fn keys<V>(m: &HashMap<u64, V>) -> (r: Vec<u64>)
    ensures
        r@.no_duplicates(),
        r@.to_set() == m@.dom(),
{
    let mut r: Vec<u64> = Vec::new();
    for k in it: m.keys()
        invariant
            r@ == it.seq().unref().take(it.index()),
            it.seq().unref().no_duplicates(),
            it.seq().unref().to_set() == m@.dom(),
            it.seq().unref().take(it.seq().len() as int) == it.seq().unref(),
    {
        r.push(*k);
        assert(it.seq().unref().take(it.index() + 1) =~= it.seq().unref().take(it.index()).push(
            *k,
        ));
    }
    r
}

/// The keys of `m`, each once, in no particular order.
pub fn keys_u32<V>(m: &HashMap<u32, V>) -> (r: Vec<u32>)
    ensures
        r@.no_duplicates(),
        r@.to_set() == m@.dom(),
{
    let mut r: Vec<u32> = Vec::new();
    for k in it: m.keys()
        invariant
            r@ == it.seq().unref().take(it.index()),
            it.seq().unref().no_duplicates(),
            it.seq().unref().to_set() == m@.dom(),
            it.seq().unref().take(it.seq().len() as int) == it.seq().unref(),
    {
        r.push(*k);
        assert(it.seq().unref().take(it.index() + 1) =~= it.seq().unref().take(it.index()).push(
            *k,
        ));
    }
    r
}

/// The first `i` keys of a list.
pub open spec fn seen<A>(ks: Seq<A>, i: int) -> Set<A> {
    ks.take(i).to_set()
}

/// What one key more adds to those seen.
pub proof fn lemma_seen_next<A>(ks: Seq<A>, i: int)
    requires
        ks.no_duplicates(),
        0 <= i < ks.len(),
    ensures
        seen(ks, i).finite(),
        !seen(ks, i).contains(ks[i]),
        seen(ks, i + 1) == seen(ks, i).insert(ks[i]),
        ks.to_set().contains(ks[i]),
        seen(ks, i).subset_of(ks.to_set()),
{
    vstd::seq_lib::seq_to_set_is_finite(ks.take(i));
    assert(ks.take(i + 1) =~= ks.take(i).push(ks[i]));
    assert forall|k: A| #[trigger] seen(ks, i + 1).contains(k) == seen(ks, i).insert(
        ks[i],
    ).contains(k) by {
        if ks.take(i).contains(k) {
            let j = choose|j: int| 0 <= j < i && ks.take(i)[j] == k;
            assert(ks.take(i + 1)[j] == k);
        }
        assert(ks.take(i + 1)[i] == ks[i]);
        if ks.take(i + 1).contains(k) {
            let more = ks.take(i + 1);
            let j = choose|j: int| 0 <= j < more.len() && more[j] == k;
            if j < i {
                assert(ks.take(i)[j] == k);
            }
        }
    }
    assert(seen(ks, i + 1) =~= seen(ks, i).insert(ks[i]));
    assert(ks.contains(ks[i]));
    assert forall|k: A| seen(ks, i).contains(k) implies ks.to_set().contains(k) by {
        let j = choose|j: int| 0 <= j < i && ks.take(i)[j] == k;
        assert(ks[j] == k);
    }
}

/// None and all of the keys.
pub proof fn lemma_seen_ends<A>(ks: Seq<A>)
    ensures
        seen(ks, 0) == Set::<A>::empty(),
        seen(ks, ks.len() as int) == ks.to_set(),
        ks.to_set().finite(),
{
    assert(ks.take(0) =~= Seq::<A>::empty());
    assert(seen(ks, 0) =~= Set::<A>::empty());
    assert(ks.take(ks.len() as int) =~= ks);
    vstd::seq_lib::seq_to_set_is_finite(ks);
}

/// How many members of `s` meet `p`.
pub open spec fn count<A>(s: Set<A>, p: spec_fn(A) -> bool) -> nat {
    s.filter(p).len()
}

/// What a new member adds to a count.
pub proof fn lemma_count_insert<A>(s: Set<A>, x: A, p: spec_fn(A) -> bool)
    requires
        s.finite(),
        !s.contains(x),
    ensures
        count(s.insert(x), p) == count(s, p) + (if p(x) {
            1nat
        } else {
            0
        }),
{
    vstd::set_lib::lemma_set_subset_finite(s, s.filter(p));
    if p(x) {
        assert(s.insert(x).filter(p) =~= s.filter(p).insert(x));
    } else {
        assert(s.insert(x).filter(p) =~= s.filter(p));
    }
}

/// Nobody is counted among nobody.
pub proof fn lemma_count_empty<A>(p: spec_fn(A) -> bool)
    ensures
        count(Set::<A>::empty(), p) == 0,
{
    assert(Set::<A>::empty().filter(p) =~= Set::<A>::empty());
}

/// Whether scored ids stand in order, the best score first.
pub open spec fn best_first(s: Seq<(u64, u8)>) -> bool {
    forall|i: int, j: int| 0 <= i < j < s.len() ==> (#[trigger] s[i]).1 >= (#[trigger] s[j]).1
}

/// Puts a scored id in its place.
pub fn insert_scored(v: &mut Vec<(u64, u8)>, id: u64, score: u8)
    requires
        best_first(old(v)@),
    ensures
        best_first(final(v)@),
        exists|p: int|
            0 <= p <= old(v)@.len() && final(v)@ == #[trigger] old(v)@.insert(p, (id, score)),
{
    let ghost before = v@;
    let mut p: usize = 0;
    while p < v.len() && v[p].1 >= score
        invariant
            v@ == before,
            p <= v@.len(),
            forall|k: int| 0 <= k < p ==> (#[trigger] v@[k]).1 >= score,
        decreases v@.len() - p,
    {
        p = p + 1;
    }
    v.insert(p, (id, score));
    proof {
        assert(v@ == before.insert(p as int, (id, score)));
        assert forall|i: int, j: int| 0 <= i < j < v@.len() implies (#[trigger] v@[i]).1 >= (
        #[trigger] v@[j]).1 by {
            let i0 = if i < p { i } else { i - 1 };
            let j0 = if j < p { j } else { j - 1 };
            if i != p && j != p {
                assert(v@[i] == before[i0] && v@[j] == before[j0]);
            } else if i == p {
                assert(v@[j] == before[j0]);
                assert(before[p as int].1 < score);
            } else {
                assert(v@[i] == before[i0]);
            }
        }
    }
}

/// What an insertion does to the members of a list without repeated ids.
pub proof fn lemma_insert_scored(s: Seq<(u64, u8)>, p: int, x: (u64, u8))
    requires
        0 <= p <= s.len(),
        distinct_ids(s),
        forall|i: int| 0 <= i < s.len() ==> (#[trigger] s[i]).0 != x.0,
    ensures
        distinct_ids(s.insert(p, x)),
        forall|y: (u64, u8)| #[trigger] s.insert(p, x).contains(y) <==> s.contains(y) || y == x,
{
    let t = s.insert(p, x);
    assert forall|i: int, j: int| 0 <= i < j < t.len() implies (#[trigger] t[i]).0 != (
    #[trigger] t[j]).0 by {
        let i0 = if i < p { i } else { i - 1 };
        let j0 = if j < p { j } else { j - 1 };
        if i != p && j != p {
            assert(t[i] == s[i0] && t[j] == s[j0]);
        } else if i == p {
            assert(t[j] == s[j0]);
        } else {
            assert(t[i] == s[i0]);
        }
    }
    assert forall|y: (u64, u8)| #[trigger] t.contains(y) <==> s.contains(y) || y == x by {
        if s.contains(y) {
            let i = choose|i: int| 0 <= i < s.len() && s[i] == y;
            let i1 = if i < p { i } else { i + 1 };
            assert(t[i1] == y);
        }
        assert(t[p] == x);
        if t.contains(y) {
            let i = choose|i: int| 0 <= i < t.len() && t[i] == y;
            if i != p {
                let i0 = if i < p { i } else { i - 1 };
                assert(s[i0] == y);
            }
        }
    }
}

/// Whether no id occurs twice.
pub open spec fn distinct_ids(s: Seq<(u64, u8)>) -> bool {
    forall|i: int, j: int| 0 <= i < j < s.len() ==> (#[trigger] s[i]).0 != (#[trigger] s[j]).0
}

/// Being another id than `id`.
pub open spec fn other_than(id: u64) -> spec_fn(u64) -> bool {
    |x: u64| x != id
}

/// The ids of `s` other than `id`, in their order.
pub open spec fn except(s: Seq<u64>, id: u64) -> Seq<u64> {
    s.filter(other_than(id))
}

/// An id is left where it was there before and is another.
pub proof fn lemma_except(s: Seq<u64>, id: u64)
    ensures
        except(s, id).len() <= s.len(),
        forall|x: u64| #[trigger] except(s, id).contains(x) <==> s.contains(x) && x != id,
        forall|i: int|
            0 <= i < except(s, id).len() ==> s.contains(#[trigger] except(s, id)[i]) && except(
                s,
                id,
            )[i] != id,
{
    broadcast use vstd::seq_lib::group_filter_ensures;

    let other = other_than(id);
    assert forall|x: u64| #[trigger] except(s, id).contains(x) <==> s.contains(x) && x != id by {
        if except(s, id).contains(x) {
            s.lemma_filter_contains_rev(other, x);
            let i = choose|i: int| 0 <= i < except(s, id).len() && except(s, id)[i] == x;
            assert(other(s.filter(other)[i]));
        }
        if s.contains(x) && x != id {
            let i = choose|i: int| 0 <= i < s.len() && s[i] == x;
            assert(other(s[i]));
        }
    }
    assert forall|i: int| 0 <= i < except(s, id).len() implies s.contains(
        #[trigger] except(s, id)[i],
    ) && except(s, id)[i] != id by {
        assert(except(s, id).contains(except(s, id)[i]));
    }
}

/// The ids of `v` other than `id`, in their order.
pub fn without(v: &Vec<u64>, id: u64) -> (r: Vec<u64>)
    ensures
        r@ == except(v@, id),
{
    let ghost other = other_than(id);
    let mut r: Vec<u64> = Vec::new();
    let mut i: usize = 0;
    reveal(Seq::filter);
    assert(v@.take(0).filter(other) =~= Seq::<u64>::empty());
    while i < v.len()
        invariant
            i <= v@.len(),
            other == other_than(id),
            r@ == v@.take(i as int).filter(other),
        decreases v@.len() - i,
    {
        reveal(Seq::filter);
        assert(v@.take(i + 1).drop_last() =~= v@.take(i as int));
        if v[i] != id {
            r.push(v[i]);
        }
        i = i + 1;
    }
    assert(v@.take(i as int) =~= v@);
    r
}

/// Nothing is taken out where `id` does not occur.
pub proof fn lemma_except_none(s: Seq<u64>, id: u64)
    requires
        forall|i: int| 0 <= i < s.len() ==> #[trigger] s[i] != id,
    ensures
        except(s, id) == s,
    decreases s.len(),
{
    reveal(Seq::filter);
    if s.len() > 0 {
        lemma_except_none(s.drop_last(), id);
        assert(s =~= s.drop_last().push(s.last()));
    } else {
        assert(except(s, id) =~= s);
    }
}

/// A list without repetitions has none without `id` either.
pub proof fn lemma_except_distinct(s: Seq<u64>, id: u64)
    requires
        s.no_duplicates(),
    ensures
        except(s, id).no_duplicates(),
    decreases s.len(),
{
    reveal(Seq::filter);
    if s.len() > 0 {
        let front = s.drop_last();
        lemma_except_distinct(front, id);
        if s.last() != id {
            lemma_except(front, id);
            if except(front, id).contains(s.last()) {
                let k = choose|k: int| 0 <= k < front.len() && front[k] == s.last();
                assert(s[k] == s[s.len() - 1]);
            }
            lemma_push_contains(except(front, id), s.last());
            assert(except(s, id) == except(front, id).push(s.last()));
        }
    }
}

/// The ids of a queue other than `id`, in their order.
pub fn queue_without(q: &VecDeque<u64>, id: u64) -> (r: VecDeque<u64>)
    ensures
        r@ == except(q@, id),
{
    let ghost other = other_than(id);
    let mut r: VecDeque<u64> = VecDeque::new();
    let mut i: usize = 0;
    reveal(Seq::filter);
    assert(q@.take(0).filter(other) =~= Seq::<u64>::empty());
    while i < q.len()
        invariant
            i <= q@.len(),
            other == other_than(id),
            r@ == q@.take(i as int).filter(other),
        decreases q@.len() - i,
    {
        reveal(Seq::filter);
        assert(q@.take(i + 1).drop_last() =~= q@.take(i as int));
        if q[i] != id {
            r.push_back(q[i]);
        }
        i = i + 1;
    }
    assert(q@.take(i as int) =~= q@);
    r
}

/// What a new member does to a list without repetitions.
pub proof fn lemma_push_contains(s: Seq<u64>, x: u64)
    requires
        s.no_duplicates(),
        !s.contains(x),
    ensures
        s.push(x).no_duplicates(),
        forall|y: u64| #[trigger] s.push(x).contains(y) <==> s.contains(y) || y == x,
{
    let t = s.push(x);
    assert forall|y: u64| #[trigger] t.contains(y) <==> s.contains(y) || y == x by {
        if s.contains(y) {
            let i = choose|i: int| 0 <= i < s.len() && s[i] == y;
            assert(t[i] == y);
        }
        assert(t[s.len() as int] == x);
        if t.contains(y) {
            let i = choose|i: int| 0 <= i < t.len() && t[i] == y;
            if i < s.len() {
                assert(s[i] == y);
            }
        }
    }
    assert forall|i: int, j: int| 0 <= i < t.len() && 0 <= j < t.len() && i != j implies t[i]
        != t[j] by {
        if i < s.len() && j < s.len() {
            assert(s[i] != s[j]);
        } else if i < s.len() {
            assert(s.contains(s[i]));
        } else {
            assert(s.contains(s[j]));
        }
    }
}

} // verus!
