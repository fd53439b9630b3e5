use vstd::prelude::*;
use crate::combinations::{
    combinations_at_least, lemma_combos_from_shape, nested_view, select, subsets_at_least,
    subsets_between, subsets_of_size,
};
use crate::error::CouponError;
use crate::ordering::{canonical, sorted_indices};

verus! {

/// One signed term of an inclusion-exclusion sum: the total probability of the
/// coupon types at `positions` (0-based places in the probability vector), raised
/// to the number of draws, and subtracted when `negative` is set.
#[derive(Debug, Clone)]
pub struct Term {
    pub negative: bool,
    pub positions: Vec<usize>,
}

impl View for Term {
    type V = (bool, Seq<usize>);

    open spec fn view(&self) -> (bool, Seq<usize>) {
        (self.negative, self.positions@)
    }
}

/// The contents of each term in a sequence of terms.
pub open spec fn term_views(v: Seq<Term>) -> Seq<(bool, Seq<usize>)> {
    v.map_values(|t: Term| t@)
}

/// 1-based coupon-type identifiers turned into 0-based places in the probability vector.
pub open spec fn zero_based(h: Seq<usize>) -> Seq<usize> {
    h.map_values(|i: usize| (i - 1) as usize)
}

/// The term for the sub-subset h of a target set with target_len members: its sign
/// is that of (-1)^(target_len + |h|).
pub open spec fn signed_term(target_len: nat, h: Seq<usize>) -> (bool, Seq<usize>) {
    ((target_len + h.len()) % 2 == 1, zero_based(h))
}

/// The inclusion-exclusion expansion of the probability that, after n draws, the
/// types drawn are exactly those of `target`: one signed term for each sub-subset
/// h of the target, smallest first; no terms at all (a sum of 0) when fewer draws
/// than target types were made.
pub open spec fn exact_hit_expansion(n: nat, target: Seq<usize>) -> Seq<(bool, Seq<usize>)> {
    if n < target.len() {
        Seq::empty()
    } else {
        subsets_at_least(target, 0).map_values(|h: Seq<usize>| signed_term(target.len(), h))
    }
}

/// Every entry of every subset is an entry of the items.
pub proof fn lemma_subset_members<T>(items: Seq<T>, lo: nat, hi: nat)
    requires
        items.len() <= usize::MAX,
    ensures
        forall|i: int, j: int|
            0 <= i < subsets_between(items, lo, hi).len() && 0 <= j
                < subsets_between(items, lo, hi)[i].len() ==> items.contains(
                #[trigger] subsets_between(items, lo, hi)[i][j],
            ),
    decreases hi,
{
    if hi > lo {
        let m = (hi - 1) as nat;
        lemma_subset_members(items, lo, m);
        let a = subsets_between(items, lo, m);
        let b = subsets_of_size(items, m);
        lemma_combos_from_shape(0, items.len(), m);
        assert(subsets_between(items, lo, hi) == a + b);
        assert forall|i: int, j: int|
            0 <= i < (a + b).len() && 0 <= j < (a + b)[i].len() implies items.contains(
            #[trigger] (a + b)[i][j],
        ) by {
            if i < a.len() {
                assert((a + b)[i] == a[i]);
            } else {
                let c = crate::combinations::index_combinations(items.len(), m)[i - a.len()];
                assert((a + b)[i] == select(items, c));
                assert(0 <= c[j] < items.len());
                assert((a + b)[i][j] == items[c[j] as int]);
            }
        }
    }
}

/// The signed terms whose sum is the probability that, after `n` draws, the types
/// drawn are exactly the (1-based) types of `target`.
pub fn exact_hit_terms(n: usize, target: &Vec<usize>) -> (r: Vec<Term>)
    requires
        forall|i: int| 0 <= i < target.len() ==> #[trigger] target[i] >= 1,
    ensures
        term_views(r@) == exact_hit_expansion(n as nat, target@),
        n < target.len() ==> r@.len() == 0,
{
    if n < target.len() {
        let none: Vec<Term> = Vec::new();
        assert(term_views(none@) =~= exact_hit_expansion(n as nat, target@));
        return none;
    }
    let subs = match combinations_at_least(target, 0) {
        Ok(s) => s,
        Err(_) => {
            return Vec::new();
        },
    };
    let ghost hs = subsets_at_least(target@, 0);
    let ghost want = exact_hit_expansion(n as nat, target@);
    proof {
        lemma_subset_members(target@, 0, (target.len() + 1) as nat);
        assert(nested_view(subs@) == hs);
        assert(subs@.len() == hs.len());
    }
    let mut out: Vec<Term> = Vec::new();
    let mut i: usize = 0;
    while i < subs.len()
        invariant
            i <= subs.len(),
            n >= target.len(),
            nested_view(subs@) == hs,
            subs@.len() == hs.len(),
            hs == subsets_at_least(target@, 0),
            want == exact_hit_expansion(n as nat, target@),
            forall|a: int| 0 <= a < target.len() ==> #[trigger] target[a] >= 1,
            forall|a: int, b: int|
                0 <= a < hs.len() && 0 <= b < hs[a].len() ==> target@.contains(
                    #[trigger] hs[a][b],
                ),
            term_views(out@) =~= want.take(i as int),
        decreases subs.len() - i,
    {
        let h = &subs[i];
        assert(h@ == hs[i as int]);
        let mut positions: Vec<usize> = Vec::new();
        let mut j: usize = 0;
        while j < h.len()
            invariant
                j <= h.len(),
                h@ == hs[i as int],
                forall|b: int| 0 <= b < h@.len() ==> target@.contains(#[trigger] h@[b]),
                forall|a: int| 0 <= a < target.len() ==> #[trigger] target[a] >= 1,
                positions@ =~= zero_based(h@.take(j as int)),
            decreases h.len() - j,
        {
            assert(target@.contains(h@[j as int]));
            positions.push(h[j] - 1);
            j = j + 1;
            assert(h@.take(j as int) =~= h@.take(j - 1 as int).push(h@[j - 1]));
        }
        assert(h@.take(j as int) =~= h@);
        let negative = (target.len() % 2) != (h.len() % 2);
        let term = Term { negative, positions };
        assert(term@ == want[i as int]);
        let ghost before = out@;
        out.push(term);
        assert(term_views(out@) =~= term_views(before).push(term@));
        assert(want.take(i + 1 as int) =~= want.take(i as int).push(want[i as int]));
        i = i + 1;
    }
    assert(want.take(i as int) =~= want);
    out
}

/// The types 1 ..= m that are not in `group`, in ascending order.
pub open spec fn complement_upto(m: nat, group: Seq<usize>) -> Seq<usize>
    decreases m,
{
    if m == 0 {
        Seq::empty()
    } else {
        let rest = complement_upto((m - 1) as nat, group);
        if group.contains(m as usize) {
            rest
        } else {
            rest.push(m as usize)
        }
    }
}

/// For each h of `hs` in turn, and for each c of `cs` in turn, the indices of h
/// and c together in ascending order.
pub open spec fn combined_targets(hs: Seq<Seq<usize>>, cs: Seq<Seq<usize>>) -> Seq<Seq<usize>> {
    hs.map_values(|h: Seq<usize>| combined_row(h, cs)).flatten()
}

/// The indices of h together with those of each c of `cs`, in ascending order.
pub open spec fn combined_row(h: Seq<usize>, cs: Seq<Seq<usize>>) -> Seq<Seq<usize>> {
    cs.map_values(|c: Seq<usize>| canonical(h + c))
}

/// The target sets whose exact-hit probabilities add up to the probability that at
/// least k types of `group` are collected, among num_types types: at least k types
/// of the group, joined with any types (possibly none) from outside it.
pub open spec fn at_least_k_plan(num_types: nat, k: nat, group: Seq<usize>) -> Seq<Seq<usize>> {
    combined_targets(
        subsets_at_least(group, k),
        subsets_at_least(complement_upto(num_types, group), 0),
    )
}

/// Whether `x` is one of the entries of `group`.
fn contains_index(group: &Vec<usize>, x: usize) -> (r: bool)
    ensures
        r == group@.contains(x),
{
    let mut i: usize = 0;
    while i < group.len()
        invariant
            i <= group.len(),
            forall|j: int| 0 <= j < i ==> group@[j] != x,
        decreases group.len() - i,
    {
        if group[i] == x {
            return true;
        }
        i = i + 1;
    }
    false
}

/// The types 1 ..= `num_types` that are not in `group`, in ascending order.
pub fn complement_indices(num_types: usize, group: &Vec<usize>) -> (r: Vec<usize>)
    ensures
        r@ == complement_upto(num_types as nat, group@),
{
    let mut out: Vec<usize> = Vec::new();
    let mut m: usize = 0;
    while m < num_types
        invariant
            m <= num_types,
            out@ == complement_upto(m as nat, group@),
        decreases num_types - m,
    {
        let id = m + 1;
        if !contains_index(group, id) {
            out.push(id);
        }
        m = m + 1;
    }
    out
}

/// The entries of `a` followed by those of `b`.
fn concat_indices(a: &Vec<usize>, b: &Vec<usize>) -> (r: Vec<usize>)
    ensures
        r@ == a@ + b@,
{
    let mut out: Vec<usize> = Vec::new();
    let mut i: usize = 0;
    while i < a.len()
        invariant
            i <= a.len(),
            out@ =~= a@.take(i as int),
        decreases a.len() - i,
    {
        out.push(a[i]);
        i = i + 1;
    }
    let mut j: usize = 0;
    while j < b.len()
        invariant
            j <= b.len(),
            i == a.len(),
            out@ =~= a@ + b@.take(j as int),
        decreases b.len() - j,
    {
        out.push(b[j]);
        j = j + 1;
    }
    out
}

/// The target sets whose exact-hit probabilities add up to the probability that at
/// least `k` of the (1-based) types in `group` are collected after `n` draws among
/// `num_types` types. Fails when `n` is 0, and when `k` is 0 or exceeds the group.
pub fn at_least_k_targets(num_types: usize, n: usize, k: usize, group: &Vec<usize>) -> (r: Result<
    Vec<Vec<usize>>,
    CouponError,
>)
    ensures
        n == 0 ==> r == Err::<Vec<Vec<usize>>, CouponError>(CouponError::TrialsNotPositive),
        n > 0 && (k == 0 || k > group.len()) ==> r == Err::<Vec<Vec<usize>>, CouponError>(
            CouponError::InvalidK,
        ),
        n > 0 && 0 < k <= group.len() ==> r is Ok,
        r matches Ok(v) ==> nested_view(v@) == at_least_k_plan(num_types as nat, k as nat, group@),
{
    if n == 0 {
        return Err(CouponError::TrialsNotPositive);
    }
    if k == 0 || k > group.len() {
        return Err(CouponError::InvalidK);
    }
    let complement = complement_indices(num_types, group);
    let hs = match combinations_at_least(group, k) {
        Ok(v) => v,
        Err(e) => {
            return Err(e);
        },
    };
    let cs = match combinations_at_least(&complement, 0) {
        Ok(v) => v,
        Err(e) => {
            return Err(e);
        },
    };
    let ghost hv = nested_view(hs@);
    let ghost cv = nested_view(cs@);
    let ghost rows = hv.map_values(|h: Seq<usize>| combined_row(h, cv));
    let mut out: Vec<Vec<usize>> = Vec::new();
    let mut i: usize = 0;
    while i < hs.len()
        invariant
            i <= hs.len(),
            hv == nested_view(hs@),
            cv == nested_view(cs@),
            rows == hv.map_values(|h: Seq<usize>| combined_row(h, cv)),
            nested_view(out@) =~= rows.take(i as int).flatten(),
        decreases hs.len() - i,
    {
        let ghost start = out@;
        let mut j: usize = 0;
        while j < cs.len()
            invariant
                i < hs.len(),
                j <= cs.len(),
                hv == nested_view(hs@),
                cv == nested_view(cs@),
                nested_view(start) =~= rows.take(i as int).flatten(),
                rows == hv.map_values(|h: Seq<usize>| combined_row(h, cv)),
                nested_view(out@) =~= nested_view(start) + combined_row(hv[i as int], cv).take(
                    j as int,
                ),
            decreases cs.len() - j,
        {
            let both = concat_indices(&hs[i], &cs[j]);
            let target = sorted_indices(&both);
            assert(target@ == combined_row(hv[i as int], cv)[j as int]);
            let ghost before = out@;
            out.push(target);
            assert(nested_view(out@) =~= nested_view(before).push(target@));
            assert(combined_row(hv[i as int], cv).take(j + 1 as int) =~= combined_row(
                hv[i as int],
                cv,
            ).take(j as int).push(target@));
            j = j + 1;
        }
        proof {
            assert(combined_row(hv[i as int], cv).take(j as int) =~= combined_row(hv[i as int], cv));
            assert(rows.take(i + 1 as int) =~= rows.take(i as int).push(rows[i as int]));
            rows.take(i as int).lemma_flatten_push(rows[i as int]);
        }
        i = i + 1;
    }
    assert(rows.take(i as int) =~= rows);
    Ok(out)
}

/// The coupon types 1 ..= m, in ascending order.
pub open spec fn all_types(m: nat) -> Seq<usize> {
    Seq::new(m, |j: int| (j + 1) as usize)
}

proof fn lemma_complement_of_everything(m: nat, group: Seq<usize>)
    requires
        forall|x: usize| 1 <= x <= m ==> group.contains(x),
        m <= usize::MAX,
    ensures
        complement_upto(m, group) == Seq::<usize>::empty(),
    decreases m,
{
    if m > 0 {
        lemma_complement_of_everything((m - 1) as nat, group);
        assert(group.contains(m as usize));
    }
}

proof fn lemma_flatten_concat<A>(x: Seq<Seq<A>>, y: Seq<Seq<A>>)
    ensures
        (x + y).flatten() == x.flatten() + y.flatten(),
    decreases y.len(),
{
    if y.len() == 0 {
        assert(x + y =~= x);
        assert(x.flatten() + y.flatten() =~= x.flatten());
    } else {
        let init = y.drop_last();
        let e = y.last();
        lemma_flatten_concat(x, init);
        assert(y =~= init.push(e));
        assert(x + y =~= (x + init).push(e));
        (x + init).lemma_flatten_push(e);
        init.lemma_flatten_push(e);
        assert((x + y).flatten() =~= x.flatten() + y.flatten());
    }
}

proof fn lemma_subsets_split_low<T>(items: Seq<T>, lo: nat, hi: nat)
    requires
        lo < hi,
    ensures
        subsets_between(items, lo, hi) == subsets_of_size(items, lo) + subsets_between(
            items,
            lo + 1,
            hi,
        ),
    decreases hi,
{
    if hi == lo + 1 {
        assert(subsets_between(items, lo, lo) =~= Seq::<Seq<T>>::empty());
        assert(subsets_between(items, lo + 1, hi) =~= Seq::<Seq<T>>::empty());
        assert(subsets_between(items, lo, hi) =~= subsets_of_size(items, lo));
    } else {
        lemma_subsets_split_low(items, lo, (hi - 1) as nat);
        assert(subsets_between(items, lo, hi) =~= subsets_of_size(items, lo) + subsets_between(
            items,
            lo + 1,
            hi,
        ));
    }
}

/// When the group is every type and the threshold is the whole group, the plan has
/// one target set only: all the types, so the probability is the exact-hit
/// probability of the full set.
pub proof fn law_full_group_is_exact_hit(num_types: nat, group: Seq<usize>)
    requires
        group.no_duplicates(),
        forall|x: usize| group.contains(x) <==> 1 <= x <= num_types,
        num_types <= usize::MAX,
        group.len() <= usize::MAX,
    ensures
        at_least_k_plan(num_types, group.len(), group) == seq![all_types(num_types)],
{
    broadcast use vstd::seq_lib::group_to_multiset_ensures;

    let full = all_types(num_types);
    lemma_complement_of_everything(num_types, group);
    let none = Seq::<usize>::empty();
    crate::combinations::law_choose_all(group);
    crate::combinations::law_choose_none(none);
    assert(subsets_between(group, group.len(), group.len()) =~= Seq::<Seq<usize>>::empty());
    assert(subsets_at_least(group, group.len()) =~= seq![group]);
    assert(subsets_between(none, 0, 0) =~= Seq::<Seq<usize>>::empty());
    assert(subsets_at_least(none, 0) =~= seq![none]);
    assert(group + none =~= group);
    let row = combined_row(group, seq![none]);
    assert(row =~= seq![canonical(group)]);
    let rows = seq![group].map_values(|h: Seq<usize>| combined_row(h, seq![none]));
    assert(rows =~= seq![row]);
    rows.lemma_flatten_one_element();
    assert(at_least_k_plan(num_types, group.len(), group) == seq![canonical(group)]);
    // The ascending listing of 1 ..= num_types holds the same types, once each.
    assert forall|x: usize| group.contains(x) <==> full.contains(x) by {
        if 1 <= x <= num_types {
            assert(full[x - 1] == x);
        }
    }
    assert(full.no_duplicates());
    group.lemma_multiset_has_no_duplicates();
    full.lemma_multiset_has_no_duplicates();
    assert forall|x: usize| group.to_multiset().count(x) == full.to_multiset().count(x) by {
        if group.contains(x) {
            assert(full.contains(x));
        } else {
            assert(!full.contains(x));
        }
    }
    assert(group.to_multiset() =~= full.to_multiset());
    crate::ordering::lemma_canonical_unique(group, full);
}

/// Raising the threshold from k to k + 1 drops a leading block of target sets and
/// keeps the rest in order: the plan for k is the target sets with exactly k group
/// types, followed by the plan for k + 1. The sum for k is therefore the sum for
/// k + 1 plus the exact-hit probabilities of that leading block.
pub proof fn law_higher_threshold_is_suffix(num_types: nat, k: nat, group: Seq<usize>)
    requires
        k <= group.len(),
    ensures
        at_least_k_plan(num_types, k, group) == combined_targets(
            subsets_of_size(group, k),
            subsets_at_least(complement_upto(num_types, group), 0),
        ) + at_least_k_plan(num_types, k + 1, group),
{
    let cs = subsets_at_least(complement_upto(num_types, group), 0);
    let a = subsets_of_size(group, k);
    let b = subsets_at_least(group, k + 1);
    lemma_subsets_split_low(group, k, group.len() + 1);
    assert(subsets_at_least(group, k) == a + b);
    let f = |h: Seq<usize>| combined_row(h, cs);
    assert((a + b).map_values(f) =~= a.map_values(f) + b.map_values(f));
    lemma_flatten_concat(a.map_values(f), b.map_values(f));
}

} // verus!
