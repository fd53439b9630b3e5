use vstd::prelude::*;
use itertools::Itertools;
use crate::error::CouponError;

verus! {

/// The binomial coefficient C(n, k), by Pascal's rule.
pub open spec fn binomial(n: nat, k: nat) -> nat
    decreases n,
{
    if k == 0 {
        1
    } else if n == 0 {
        0
    } else {
        binomial((n - 1) as nat, (k - 1) as nat) + binomial((n - 1) as nat, k)
    }
}

/// The k-element selections from the positions lo, lo + 1, ..., n - 1, each as an
/// increasing sequence of positions, in lexicographic order.
pub open spec fn combos_from(lo: nat, n: nat, k: nat) -> Seq<Seq<usize>>
    decreases n - lo,
{
    if k == 0 {
        seq![Seq::empty()]
    } else if lo >= n {
        Seq::empty()
    } else {
        combos_from(lo + 1, n, (k - 1) as nat).map_values(|c: Seq<usize>| seq![lo as usize] + c)
            + combos_from(lo + 1, n, k)
    }
}

/// The k-element selections of positions 0 .. n, in lexicographic order.
pub open spec fn index_combinations(n: nat, k: nat) -> Seq<Seq<usize>> {
    combos_from(0, n, k)
}

/// The items found at the given positions, in the order of the positions.
pub open spec fn select<T>(items: Seq<T>, positions: Seq<usize>) -> Seq<T> {
    positions.map_values(|j: usize| items[j as int])
}

/// Every subset of exactly k items, each keeping the relative order of the items.
/// Items are told apart by position, so equal values at two positions count twice.
pub open spec fn subsets_of_size<T>(items: Seq<T>, k: nat) -> Seq<Seq<T>> {
    index_combinations(items.len(), k).map_values(|c: Seq<usize>| select(items, c))
}

/// The subsets of every size from lo up to (not including) hi, smallest sizes first.
pub open spec fn subsets_between<T>(items: Seq<T>, lo: nat, hi: nat) -> Seq<Seq<T>>
    decreases hi,
{
    if hi <= lo {
        Seq::empty()
    } else {
        subsets_between(items, lo, (hi - 1) as nat) + subsets_of_size(items, (hi - 1) as nat)
    }
}

/// Every subset with at least k items, grouped by size, smallest sizes first.
pub open spec fn subsets_at_least<T>(items: Seq<T>, k: nat) -> Seq<Seq<T>> {
    subsets_between(items, k, items.len() + 1)
}

/// The contents of each vector in a sequence of vectors.
pub open spec fn nested_view<T>(v: Seq<Vec<T>>) -> Seq<Seq<T>> {
    v.map_values(|x: Vec<T>| x@)
}

/// Each selection of positions has k entries, strictly increasing, all in lo .. n.
pub proof fn lemma_combos_from_shape(lo: nat, n: nat, k: nat)
    requires
        n <= usize::MAX + 1,
    ensures
        forall|i: int|
            #![trigger combos_from(lo, n, k)[i]]
            0 <= i < combos_from(lo, n, k).len() ==> {
                let c = combos_from(lo, n, k)[i];
                &&& c.len() == k
                &&& forall|j: int| 0 <= j < c.len() ==> lo <= #[trigger] c[j] < n
                &&& forall|a: int, b: int| 0 <= a < b < c.len() ==> #[trigger] c[a] < #[trigger] c[b]
            },
    decreases n - lo,
{
    if k == 0 {
    } else if lo >= n {
    } else {
        let left = combos_from(lo + 1, n, (k - 1) as nat);
        let right = combos_from(lo + 1, n, k);
        let f = |c: Seq<usize>| seq![lo as usize] + c;
        lemma_combos_from_shape(lo + 1, n, (k - 1) as nat);
        lemma_combos_from_shape(lo + 1, n, k);
        let all = left.map_values(f) + right;
        assert(combos_from(lo, n, k) == all);
        assert forall|i: int| 0 <= i < all.len() implies {
            let c = #[trigger] all[i];
            &&& c.len() == k
            &&& forall|j: int| 0 <= j < c.len() ==> lo <= #[trigger] c[j] < n
            &&& forall|a: int, b: int| 0 <= a < b < c.len() ==> #[trigger] c[a] < #[trigger] c[b]
        } by {
            if i < left.len() {
                let d = left[i];
                let c = all[i];
                assert(c == seq![lo as usize] + d);
                assert(forall|j: int| 0 <= j < d.len() ==> lo + 1 <= #[trigger] d[j] < n);
                assert(forall|j: int| 1 <= j < c.len() ==> #[trigger] c[j] == d[j - 1]);
                assert forall|a: int, b: int| 0 <= a < b < c.len() implies #[trigger] c[a] < #[trigger] c[b] by {
                    if a > 0 {
                        assert(c[a] == d[a - 1] && c[b] == d[b - 1]);
                    } else {
                        assert(c[b] == d[b - 1]);
                    }
                }
                assert forall|j: int| 0 <= j < c.len() implies lo <= #[trigger] c[j] < n by {
                    if j > 0 {
                        assert(c[j] == d[j - 1]);
                    }
                }
            } else {
                assert(all[i] == right[i - left.len()]);
            }
        }
    }
}

/// The number of selections is the binomial coefficient.
pub proof fn lemma_combos_from_len(lo: nat, n: nat, k: nat)
    requires
        lo <= n,
    ensures
        combos_from(lo, n, k).len() == binomial((n - lo) as nat, k),
    decreases n - lo,
{
    if k == 0 {
    } else if lo >= n {
    } else {
        lemma_combos_from_len(lo + 1, n, (k - 1) as nat);
        lemma_combos_from_len(lo + 1, n, k);
    }
}

/// Selecting all of lo .. n gives exactly one selection: lo, lo + 1, ..., n - 1.
pub proof fn lemma_combos_from_all(lo: nat, n: nat)
    requires
        lo <= n,
        n <= usize::MAX + 1,
    ensures
        combos_from(lo, n, (n - lo) as nat) == seq![
            Seq::new((n - lo) as nat, |j: int| (lo + j) as usize),
        ],
    decreases n - lo,
{
    let full = Seq::new((n - lo) as nat, |j: int| (lo + j) as usize);
    if lo == n {
        assert(full =~= Seq::<usize>::empty());
    } else {
        lemma_combos_from_all(lo + 1, n);
        lemma_combos_from_len(lo + 1, n, (n - lo) as nat);
        lemma_binomial_above(((n - (lo + 1)) as nat), (n - lo) as nat);
        let rest = Seq::new((n - (lo + 1)) as nat, |j: int| (lo + 1 + j) as usize);
        assert(seq![lo as usize] + rest =~= full);
        let f = |c: Seq<usize>| seq![lo as usize] + c;
        assert(combos_from(lo + 1, n, (n - lo - 1) as nat).map_values(f) =~= seq![full]);
        assert(combos_from(lo + 1, n, (n - lo) as nat) =~= Seq::<Seq<usize>>::empty());
        assert(combos_from(lo, n, (n - lo) as nat) =~= seq![full]);
    }
}

/// C(n, k) is zero when k exceeds n.
pub proof fn lemma_binomial_above(n: nat, k: nat)
    requires
        k > n,
    ensures
        binomial(n, k) == 0,
    decreases n,
{
    if n > 0 {
        lemma_binomial_above((n - 1) as nat, (k - 1) as nat);
        lemma_binomial_above((n - 1) as nat, k);
    }
}

/// Choosing no items gives exactly one subset: the empty one.
pub proof fn law_choose_none<T>(items: Seq<T>)
    ensures
        subsets_of_size(items, 0) == seq![Seq::<T>::empty()],
{
    assert(select(items, Seq::<usize>::empty()) =~= Seq::<T>::empty());
    assert(subsets_of_size(items, 0) =~= seq![Seq::<T>::empty()]);
}

/// Choosing every item gives exactly one subset: the whole sequence, in order.
pub proof fn law_choose_all<T>(items: Seq<T>)
    requires
        items.len() <= usize::MAX,
    ensures
        subsets_of_size(items, items.len()) == seq![items],
{
    let n = items.len();
    lemma_combos_from_all(0, n);
    let full = Seq::new(n, |j: int| (0 + j) as usize);
    assert(select(items, full) =~= items);
    assert(subsets_of_size(items, n) =~= seq![items]);
}

/// The number of subsets of size k is the binomial coefficient C(len, k).
pub proof fn law_count_is_binomial<T>(items: Seq<T>, k: nat)
    ensures
        subsets_of_size(items, k).len() == binomial(items.len(), k),
{
    lemma_combos_from_len(0, items.len(), k);
}

/// Relies on itertools::Itertools::combinations over the range 0 .. n: it yields
/// each k-element selection of positions once, as an increasing sequence, in
/// lexicographic order (one empty selection when k is 0, none when k exceeds n).
#[verifier::external_body]
fn index_combinations_of(n: usize, k: usize) -> (r: Vec<Vec<usize>>)
    ensures
        nested_view(r@) == index_combinations(n as nat, k as nat),
{
    (0..n).combinations(k).collect()
}

/// The items at the given positions, in order.
fn select_items<T: Copy>(items: &Vec<T>, positions: &Vec<usize>) -> (r: Vec<T>)
    requires
        forall|j: int| 0 <= j < positions.len() ==> #[trigger] positions[j] < items.len(),
    ensures
        r@ == select(items@, positions@),
{
    let mut out: Vec<T> = Vec::new();
    let mut j: usize = 0;
    while j < positions.len()
        invariant
            j <= positions.len(),
            forall|i: int| 0 <= i < positions.len() ==> #[trigger] positions[i] < items.len(),
            out@ =~= select(items@, positions@.take(j as int)),
        decreases positions.len() - j,
    {
        out.push(items[positions[j]]);
        j = j + 1;
        assert(positions@.take(j as int) == positions@.take(j - 1 as int).push(positions@[j - 1]));
    }
    assert(positions@.take(j as int) == positions@);
    out
}

/// Every subset of exactly `k` items, each keeping the order of the items; fails when
/// `k` exceeds the number of items.
pub fn combinations_exact<T: Copy>(items: &Vec<T>, k: usize) -> (r: Result<Vec<Vec<T>>, CouponError>)
    ensures
        k > items.len() <==> r is Err,
        r is Err ==> r == Err::<Vec<Vec<T>>, CouponError>(CouponError::SizeExceedsItems),
        r matches Ok(v) ==> nested_view(v@) == subsets_of_size(items@, k as nat),
        r matches Ok(v) ==> v@.len() == binomial(items.len() as nat, k as nat),
{
    if k > items.len() {
        return Err(CouponError::SizeExceedsItems);
    }
    proof {
        lemma_combos_from_len(0, items.len() as nat, k as nat);
    }
    if k == 0 {
        let out: Vec<Vec<T>> = vec![Vec::new()];
        assert(select(items@, Seq::<usize>::empty()) =~= Seq::<T>::empty());
        assert(nested_view(out@) =~= subsets_of_size(items@, 0));
        return Ok(out);
    } else if items.len() == 1 {
        let out: Vec<Vec<T>> = vec![vec![items[0]]];
        proof {
            lemma_combos_from_all(0, 1);
            assert(Seq::new(1, |j: int| (0 + j) as usize) =~= seq![0usize]);
            assert(select(items@, seq![0usize]) =~= out@[0]@);
        }
        assert(nested_view(out@) =~= subsets_of_size(items@, k as nat));
        return Ok(out);
    }
    let idx = index_combinations_of(items.len(), k);
    let ghost combos = index_combinations(items.len() as nat, k as nat);
    proof {
        lemma_combos_from_shape(0, items.len() as nat, k as nat);
        assert(idx@.len() == combos.len());
    }
    let mut out: Vec<Vec<T>> = Vec::new();
    let mut i: usize = 0;
    while i < idx.len()
        invariant
            i <= idx.len(),
            nested_view(idx@) == combos,
            combos == index_combinations(items.len() as nat, k as nat),
            idx@.len() == combos.len(),
            forall|a: int|
                #![trigger combos[a]]
                0 <= a < combos.len() ==> forall|j: int|
                    0 <= j < combos[a].len() ==> 0 <= #[trigger] combos[a][j] < items.len(),
            nested_view(out@) =~= subsets_of_size(items@, k as nat).take(i as int),
        decreases idx.len() - i,
    {
        assert(idx@[i as int]@ == combos[i as int]);
        let picked = select_items(items, &idx[i]);
        assert(picked@ == subsets_of_size(items@, k as nat)[i as int]);
        let ghost before = out@;
        out.push(picked);
        assert(nested_view(out@) =~= nested_view(before).push(picked@));
        assert(subsets_of_size(items@, k as nat).take(i + 1 as int)
            =~= subsets_of_size(items@, k as nat).take(i as int).push(picked@));
        i = i + 1;
    }
    assert(subsets_of_size(items@, k as nat).take(i as int) =~= subsets_of_size(items@, k as nat));
    Ok(out)
}

/// Every subset with at least `k` items, all subsets of size `k` first, then those of
/// size `k + 1`, and so on up to the full sequence; fails when `k` exceeds the number
/// of items. With `k` equal to 0 this is the whole power set.
pub fn combinations_at_least<T: Copy>(items: &Vec<T>, k: usize) -> (r: Result<
    Vec<Vec<T>>,
    CouponError,
>)
    ensures
        k > items.len() <==> r is Err,
        r is Err ==> r == Err::<Vec<Vec<T>>, CouponError>(CouponError::SizeExceedsItems),
        r matches Ok(v) ==> nested_view(v@) == subsets_at_least(items@, k as nat),
{
    if k > items.len() {
        return Err(CouponError::SizeExceedsItems);
    }
    let mut result: Vec<Vec<T>> = Vec::new();
    let mut j: usize = k;
    loop
        invariant_except_break
            k <= j <= items.len(),
            nested_view(result@) =~= subsets_between(items@, k as nat, j as nat),
        invariant
            k <= items.len(),
        ensures
            nested_view(result@) =~= subsets_at_least(items@, k as nat),
        decreases items.len() - j,
    {
        let part = combinations_exact(items, j);
        match part {
            Ok(mut more) => {
                let ghost before = result@;
                let ghost added = more@;
                result.append(&mut more);
                assert(result@ == before + added);
                assert(nested_view(result@) =~= nested_view(before) + nested_view(added));
                assert(subsets_between(items@, k as nat, (j + 1) as nat)
                    == subsets_between(items@, k as nat, j as nat)
                        + subsets_of_size(items@, j as nat));
            },
            Err(_) => {
                return part;
            },
        }
        if j == items.len() {
            break;
        }
        j = j + 1;
    }
    Ok(result)
}

} // verus!
