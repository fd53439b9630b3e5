use vstd::prelude::*;
use vstd::relations::{sorted_by, total_ordering};
use vstd::seq_lib::lemma_sorted_unique;

verus! {

/// The order in which index sets are written: ascending.
pub open spec fn ascending(a: usize, b: usize) -> bool {
    a <= b
}

/// The canonical form of an index sequence: the same indices, in ascending order.
pub open spec fn canonical(s: Seq<usize>) -> Seq<usize> {
    s.sort_by(|a: usize, b: usize| ascending(a, b))
}

proof fn lemma_ascending_total()
    ensures
        total_ordering(|a: usize, b: usize| ascending(a, b)),
{
}

/// Any ascending arrangement of the same indices is the canonical one.
pub proof fn lemma_canonical_unique(s: Seq<usize>, t: Seq<usize>)
    requires
        sorted_by(t, |a: usize, b: usize| ascending(a, b)),
        t.to_multiset() == s.to_multiset(),
    ensures
        t == canonical(s),
{
    let leq = |a: usize, b: usize| ascending(a, b);
    lemma_ascending_total();
    s.lemma_sort_by_ensures(leq);
    lemma_sorted_unique(t, canonical(s), leq);
}

proof fn lemma_insert_multiset(s: Seq<usize>, p: int, x: usize)
    requires
        0 <= p <= s.len(),
    ensures
        s.insert(p, x).to_multiset() == s.to_multiset().insert(x),
{
    broadcast use vstd::seq_lib::group_to_multiset_ensures;
    broadcast use vstd::multiset::group_multiset_axioms;

    let t = s.insert(p, x);
    assert(t.remove(p) =~= s);
    assert(t[p] == x);
    assert(t.contains(x));
    assert(t.to_multiset().count(x) > 0);
    assert(t.to_multiset() =~= s.to_multiset().insert(x));
}

/// Each index is at most every later one.
pub open spec fn is_ascending(s: Seq<usize>) -> bool {
    forall|i: int, j: int| 0 <= i < j < s.len() ==> #[trigger] s[i] <= #[trigger] s[j]
}

/// The indices of `s` in ascending order.
pub fn sorted_indices(s: &Vec<usize>) -> (r: Vec<usize>)
    ensures
        r@ == canonical(s@),
{
    let mut r: Vec<usize> = Vec::new();
    let mut i: usize = 0;
    assert(r@ =~= s@.take(0));
    while i < s.len()
        invariant
            i <= s.len(),
            is_ascending(r@),
            r@.to_multiset() == s@.take(i as int).to_multiset(),
        decreases s.len() - i,
    {
        let x = s[i];
        let mut p: usize = 0;
        while p < r.len() && r[p] <= x
            invariant
                p <= r.len(),
                forall|j: int| 0 <= j < p ==> r@[j] <= x,
            decreases r.len() - p,
        {
            p = p + 1;
        }
        let ghost before = r@;
        assert(p < before.len() ==> before[p as int] > x);
        r.insert(p, x);
        proof {
            assert(r@ == before.insert(p as int, x));
            before.insert_ensures(p as int, x);
            assert(forall|j: int| p < j < r@.len() ==> #[trigger] r@[j] == before[j - 1]);
            lemma_insert_multiset(before, p as int, x);
            assert(s@.take(i + 1 as int) =~= s@.take(i as int).push(x));
            broadcast use vstd::seq_lib::group_to_multiset_ensures;
            assert forall|a: int, b: int| 0 <= a < b < r@.len() implies r@[a] <= r@[b] by {
                if b < p {
                    assert(r@[a] == before[a] && r@[b] == before[b]);
                    assert(before[a] <= before[b]);
                    assert(r@[a] <= r@[b]);
                } else if b == p {
                    assert(r@[a] == before[a]);
                    assert(before[a] <= x);
                    assert(r@[b] == x);
                    assert(r@[a] <= r@[b]);
                } else if a < p {
                    assert(r@[a] == before[a] && r@[b] == before[b - 1]);
                    assert(before[a] <= x);
                    assert(before[p as int] > x);
                    if p < b - 1 {
                        assert(before[p as int] <= before[b - 1]);
                    }
                    assert(before[b - 1] > x);
                    assert(r@[a] <= r@[b]);
                } else if a == p {
                    assert(r@[b] == before[b - 1]);
                    assert(before[p as int] > x);
                    if p < b - 1 {
                        assert(before[p as int] <= before[b - 1]);
                    }
                } else {
                    assert(r@[a] == before[a - 1] && r@[b] == before[b - 1]);
                    assert(before[a - 1] <= before[b - 1]);
                }
                assert(r@[a] <= r@[b]);
            }
        }
        i = i + 1;
    }
    proof {
        assert(s@.take(i as int) =~= s@);
        assert(sorted_by(r@, |a: usize, b: usize| ascending(a, b)));
        lemma_canonical_unique(s@, r@);
    }
    r
}

} // verus!
