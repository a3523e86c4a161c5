//! Ordering (score, id) entries by descending score.

use vstd::prelude::*;

use crate::models::ProductId;

verus! {

/// Scores never increase along `r`.
pub open spec fn sorted_desc(r: Seq<(u128, ProductId)>) -> bool {
    forall|a: int, b: int| 0 <= a < b < r.len() ==> r[a].0 >= r[b].0
}

/// Merges two runs in descending order of score; on equal scores the
/// entries of `a` come first.
fn merge(a: &Vec<(u128, ProductId)>, b: &Vec<(u128, ProductId)>) -> (r: Vec<(u128, ProductId)>)
    requires
        sorted_desc(a@),
        sorted_desc(b@),
    ensures
        sorted_desc(r@),
        r@.to_multiset() == a@.to_multiset().add(b@.to_multiset()),
{
    broadcast use vstd::seq_lib::group_to_multiset_ensures;
    broadcast use vstd::multiset::group_multiset_axioms;

    let mut r: Vec<(u128, ProductId)> = Vec::new();
    let mut i: usize = 0;
    let mut j: usize = 0;
    proof {
        assert(a@.take(0) =~= Seq::<(u128, ProductId)>::empty());
        assert(b@.take(0) =~= Seq::<(u128, ProductId)>::empty());
        assert(r@.to_multiset() =~= a@.take(0).to_multiset().add(b@.take(0).to_multiset()));
    }
    while i < a.len() || j < b.len()
        invariant
            i <= a@.len(),
            j <= b@.len(),
            sorted_desc(a@),
            sorted_desc(b@),
            sorted_desc(r@),
            r@.len() == i + j,
            r@.to_multiset() == a@.take(i as int).to_multiset().add(b@.take(j as int).to_multiset()),
            r@.len() > 0 && i < a@.len() ==> r@.last().0 >= a@[i as int].0,
            r@.len() > 0 && j < b@.len() ==> r@.last().0 >= b@[j as int].0,
        decreases a@.len() + b@.len() - i - j,
    {
        if j >= b.len() || (i < a.len() && a[i].0 >= b[j].0) {
            let x = a[i];
            proof {
                assert(a@.take(i + 1) =~= a@.take(i as int).push(x));
                vstd::seq_lib::to_multiset_build(a@.take(i as int), x);
                vstd::seq_lib::to_multiset_build(r@, x);
                assert(a@.take(i as int).push(x).to_multiset().add(b@.take(j as int).to_multiset())
                    =~= r@.push(x).to_multiset());
            }
            r.push(x);
            i += 1;
        } else {
            let x = b[j];
            proof {
                assert(b@.take(j + 1) =~= b@.take(j as int).push(x));
                vstd::seq_lib::to_multiset_build(b@.take(j as int), x);
                vstd::seq_lib::to_multiset_build(r@, x);
                assert(a@.take(i as int).to_multiset().add(b@.take(j as int).push(x).to_multiset())
                    =~= r@.push(x).to_multiset());
            }
            r.push(x);
            j += 1;
        }
    }
    proof {
        assert(a@.take(a@.len() as int) =~= a@);
        assert(b@.take(b@.len() as int) =~= b@);
    }
    r
}

/// Sorts `v[lo..hi]` in descending order of score; entries of equal score
/// keep their order.
pub(crate) fn merge_sort(v: &Vec<(u128, ProductId)>, lo: usize, hi: usize) -> (r: Vec<(u128, ProductId)>)
    requires
        lo <= hi <= v@.len(),
    ensures
        sorted_desc(r@),
        r@.to_multiset() == v@.subrange(lo as int, hi as int).to_multiset(),
    decreases hi - lo,
{
    if hi - lo <= 1 {
        let mut r: Vec<(u128, ProductId)> = Vec::new();
        if hi - lo == 1 {
            r.push(v[lo]);
        }
        assert(r@ =~= v@.subrange(lo as int, hi as int));
        return r;
    }
    let mid = lo + (hi - lo) / 2;
    let a = merge_sort(v, lo, mid);
    let b = merge_sort(v, mid, hi);
    proof {
        assert(v@.subrange(lo as int, hi as int) =~= v@.subrange(lo as int, mid as int) + v@.subrange(
            mid as int,
            hi as int,
        ));
        vstd::seq_lib::lemma_multiset_commutative(
            v@.subrange(lo as int, mid as int),
            v@.subrange(mid as int, hi as int),
        );
    }
    merge(&a, &b)
}

/// Applying `f` to every entry keeps sequences with equal multisets equal
/// as multisets.
pub(crate) proof fn lemma_map_to_multiset(
    s1: Seq<(u128, ProductId)>,
    s2: Seq<(u128, ProductId)>,
    f: spec_fn((u128, ProductId)) -> (u128, ProductId),
)
    requires
        s1.to_multiset() == s2.to_multiset(),
    ensures
        s1.map_values(f).to_multiset() == s2.map_values(f).to_multiset(),
    decreases s1.len(),
{
    broadcast use vstd::seq_lib::group_to_multiset_ensures;
    broadcast use vstd::multiset::group_multiset_axioms;

    if s1.len() == 0 {
        assert(s1.to_multiset().len() == 0);
        assert(s2.to_multiset().len() == s2.len());
        assert(s1.map_values(f) =~= s2.map_values(f));
    } else {
        let x = s1.last();
        let rest = s1.drop_last();
        assert(rest.push(x) =~= s1);
        assert(s2.to_multiset().count(x) > 0);
        assert(s2.contains(x));
        let j = choose|j: int| 0 <= j < s2.len() && s2[j] == x;
        assert(s2.remove(j).to_multiset() =~= rest.to_multiset());
        lemma_map_to_multiset(rest, s2.remove(j), f);
        assert(s1.map_values(f) =~= rest.map_values(f).push(f(x)));
        assert(s2.map_values(f).remove(j) =~= s2.remove(j).map_values(f));
        assert(s2.map_values(f)[j] == f(x));
        assert(s2.map_values(f).to_multiset() =~= s2.map_values(f).remove(j).to_multiset().insert(
            f(x),
        ));
    }
}

} // verus!
