use crate::candidate::{lemma_candidate_with_item, lemma_room_for, Candidate, CandidateView};
use crate::order::{ratio_eq, ratio_lt, ratio_valid, sort_indices, KeyOrder, Ratio};
use crate::problem::{lemma_sum_room, KnapsackProblem};
use vstd::prelude::*;

verus! {

/// The orders in which items are considered.
#[derive(Clone, Copy)]
pub enum ItemOrder {
    /// Highest value per unit of weight first.
    DensityDesc,
    /// Highest value first.
    ValueDesc,
    /// Lightest first.
    WeightAsc,
    /// Heaviest first.
    WeightDesc,
    /// Lowest value per unit of weight first.
    DensityAsc,
}

/// The fraction by which item `i` is ranked under `mode`.
pub open spec fn item_key(p: &KnapsackProblem, mode: ItemOrder, i: int) -> Ratio {
    match mode {
        ItemOrder::DensityDesc | ItemOrder::DensityAsc => Ratio {
            num: p.items@[i].value,
            den: p.items@[i].weight,
        },
        ItemOrder::ValueDesc => Ratio { num: p.items@[i].value, den: 1 },
        ItemOrder::WeightAsc | ItemOrder::WeightDesc => Ratio { num: p.items@[i].weight, den: 1 },
    }
}

pub open spec fn falling(mode: ItemOrder) -> bool {
    match mode {
        ItemOrder::DensityDesc | ItemOrder::ValueDesc | ItemOrder::WeightDesc => true,
        _ => false,
    }
}

/// Item `a` is taken before item `b` under `mode`: by key, and by index among
/// items of equal key (the order a stable sort of `0..n` by key gives).
pub open spec fn item_before(p: &KnapsackProblem, mode: ItemOrder, a: usize, b: usize) -> bool {
    let ka = item_key(p, mode, a as int);
    let kb = item_key(p, mode, b as int);
    (if falling(mode) {
        ratio_lt(kb, ka)
    } else {
        ratio_lt(ka, kb)
    }) || (ratio_eq(ka, kb) && a < b)
}

/// `r` lists each of the indices `0..n` once.
pub open spec fn index_perm(r: Seq<usize>, n: nat) -> bool {
    &&& r.len() == n
    &&& r.no_duplicates()
    &&& forall|i: int| 0 <= i < r.len() ==> #[trigger] r[i] < n
    &&& forall|x: usize| x < n ==> #[trigger] r.contains(x)
}

/// `r` lists the items of `p` in the order `mode` gives them.
pub open spec fn ranked(p: &KnapsackProblem, mode: ItemOrder, r: Seq<usize>) -> bool {
    &&& index_perm(r, p.n())
    &&& forall|i: int, j: int|
        0 <= i < j < r.len() ==> item_before(p, mode, #[trigger] r[i], #[trigger] r[j])
}

/// Two ranked lists agree up to position `k`.
proof fn lemma_ranked_prefix(p: &KnapsackProblem, mode: ItemOrder, r1: Seq<usize>, r2: Seq<usize>, k: nat)
    requires
        ranked(p, mode, r1),
        ranked(p, mode, r2),
        k <= r1.len(),
    ensures
        forall|i: int| 0 <= i < k ==> r1[i] == r2[i],
    decreases k,
{
    if k > 0 {
        lemma_ranked_prefix(p, mode, r1, r2, (k - 1) as nat);
        let i = k - 1;
        let x = r1[i];
        let y = r2[i];
        if x != y {
            assert(r2.contains(x));
            let j = choose|j: int| 0 <= j < r2.len() && r2[j] == x;
            if j < i {
                assert(r1[j] == r2[j]);
            }
            assert(item_before(p, mode, y, x));
            assert(r1.contains(y));
            let j2 = choose|j2: int| 0 <= j2 < r1.len() && r1[j2] == y;
            if j2 < i {
                assert(r1[j2] == r2[j2]);
            }
            assert(item_before(p, mode, x, y));
        }
    }
}

/// A ranking is unique: two lists that both rank the items of `p` under `mode`
/// are the same list.
pub proof fn law_ranking_unique(p: &KnapsackProblem, mode: ItemOrder, r1: Seq<usize>, r2: Seq<usize>)
    requires
        ranked(p, mode, r1),
        ranked(p, mode, r2),
    ensures
        r1 == r2,
{
    lemma_ranked_prefix(p, mode, r1, r2, r1.len());
    assert(r1 =~= r2);
}

/// What each order means in the items' own weights and values: item `a` comes
/// before item `b` when its value per weight (compared by cross-multiplication)
/// is higher (`DensityDesc`) or lower (`DensityAsc`), its value is higher
/// (`ValueDesc`), or its weight is lower (`WeightAsc`) or higher (`WeightDesc`);
/// among items equal in that respect, the lower index comes first.
pub proof fn law_item_order_meaning(p: &KnapsackProblem, mode: ItemOrder, a: usize, b: usize)
    ensures
        mode is DensityDesc ==> (item_before(p, mode, a, b) <==> ((p.items@[a as int].value as int)
            * (p.items@[b as int].weight as int) > (p.items@[b as int].value as int) * (
        p.items@[a as int].weight as int) || ((p.items@[a as int].value as int) * (
        p.items@[b as int].weight as int) == (p.items@[b as int].value as int) * (
        p.items@[a as int].weight as int) && a < b))),
        mode is DensityAsc ==> (item_before(p, mode, a, b) <==> ((p.items@[a as int].value as int)
            * (p.items@[b as int].weight as int) < (p.items@[b as int].value as int) * (
        p.items@[a as int].weight as int) || ((p.items@[a as int].value as int) * (
        p.items@[b as int].weight as int) == (p.items@[b as int].value as int) * (
        p.items@[a as int].weight as int) && a < b))),
        mode is ValueDesc ==> (item_before(p, mode, a, b) <==> (p.items@[a as int].value
            > p.items@[b as int].value || (p.items@[a as int].value == p.items@[b as int].value
            && a < b))),
        mode is WeightAsc ==> (item_before(p, mode, a, b) <==> (p.items@[a as int].weight
            < p.items@[b as int].weight || (p.items@[a as int].weight == p.items@[b as int].weight
            && a < b))),
        mode is WeightDesc ==> (item_before(p, mode, a, b) <==> (p.items@[a as int].weight
            > p.items@[b as int].weight || (p.items@[a as int].weight == p.items@[b as int].weight
            && a < b))),
{
    let va = p.items@[a as int].value as int;
    let vb = p.items@[b as int].value as int;
    let wa = p.items@[a as int].weight as int;
    let wb = p.items@[b as int].weight as int;
    assert(va * 1 == va && vb * 1 == vb && wa * 1 == wa && wb * 1 == wb);
    assert(vb * wa == wa * vb && va * wb == wb * va) by (nonlinear_arith);
}

/// A ranking lists the items in its order, stated in their weights and values:
/// for every two positions `i < j`, the item at `i` has at least the density
/// (`DensityDesc`), at most the density (`DensityAsc`), at least the value
/// (`ValueDesc`), at most the weight (`WeightAsc`) or at least the weight
/// (`WeightDesc`) of the item at `j`, and the lower index where they are equal.
pub proof fn law_ranking_order(p: &KnapsackProblem, mode: ItemOrder, r: Seq<usize>, i: int, j: int)
    requires
        ranked(p, mode, r),
        0 <= i < j < r.len(),
    ensures
        mode is DensityDesc ==> (p.items@[r[i] as int].value as int) * (p.items@[r[j] as int].weight as int)
            >= (p.items@[r[j] as int].value as int) * (p.items@[r[i] as int].weight as int),
        mode is DensityAsc ==> (p.items@[r[i] as int].value as int) * (p.items@[r[j] as int].weight as int)
            <= (p.items@[r[j] as int].value as int) * (p.items@[r[i] as int].weight as int),
        mode is ValueDesc ==> p.items@[r[i] as int].value >= p.items@[r[j] as int].value,
        mode is WeightAsc ==> p.items@[r[i] as int].weight <= p.items@[r[j] as int].weight,
        mode is WeightDesc ==> p.items@[r[i] as int].weight >= p.items@[r[j] as int].weight,
        (mode is ValueDesc && p.items@[r[i] as int].value == p.items@[r[j] as int].value) ==> r[i] < r[j],
        ((mode is WeightAsc || mode is WeightDesc) && p.items@[r[i] as int].weight
            == p.items@[r[j] as int].weight) ==> r[i] < r[j],
        ((mode is DensityDesc || mode is DensityAsc) && (p.items@[r[i] as int].value as int) * (
        p.items@[r[j] as int].weight as int) == (p.items@[r[j] as int].value as int) * (
        p.items@[r[i] as int].weight as int)) ==> r[i] < r[j],
{
    assert(item_before(p, mode, r[i], r[j]));
    law_item_order_meaning(p, mode, r[i], r[j]);
}

/// Among `indices`, no item has both weight and value zero (its density is undefined).
pub open spec fn densities_defined(p: &KnapsackProblem, indices: Seq<usize>) -> bool {
    forall|k: int|
        0 <= k < indices.len() ==> ratio_valid(
            Ratio { num: p.items@[indices[k] as int].value, den: p.items@[indices[k] as int].weight },
        )
}

/// Every item of `p` has a density (none has both weight and value zero).
pub open spec fn all_densities_defined(p: &KnapsackProblem) -> bool {
    forall|i: int|
        0 <= i < p.n() ==> ratio_valid(
            Ratio { num: (#[trigger] p.items@[i]).value, den: p.items@[i].weight },
        )
}

/// The selected items of `genes` all have a density (none has weight and value zero).
pub open spec fn selected_densities_defined(p: &KnapsackProblem, genes: Seq<bool>) -> bool {
    forall|i: int|
        0 <= i < p.n() && #[trigger] genes[i] ==> ratio_valid(
            Ratio { num: p.items@[i].value, den: p.items@[i].weight },
        )
}

/// Items can be ranked by density: every item has one, unless there is only one
/// item (a single item is never compared).
pub open spec fn densities_ok(p: &KnapsackProblem) -> bool {
    p.n() >= 2 ==> all_densities_defined(p)
}

pub proof fn lemma_densities_ok(p: &KnapsackProblem)
    requires
        p.sums_fit(),
        densities_ok(p),
    ensures
        p.n() >= 2 ==> densities_defined(p, Seq::new(p.n(), |i: int| i as usize)),
        forall|g: Seq<bool>| p.n() >= 2 ==> #[trigger] selected_densities_defined(p, g),
{
    let s = Seq::new(p.n(), |i: int| i as usize);
    if p.n() >= 2 {
        assert forall|k: int| 0 <= k < s.len() implies ratio_valid(
            Ratio { num: p.items@[#[trigger] s[k] as int].value, den: p.items@[s[k] as int].weight },
        ) by {
            assert(s[k] as int == k);
            assert(ratio_valid(Ratio { num: p.items@[k].value, den: p.items@[k].weight }));
        }
    }
}

/// The keys of the items of `p` under `mode`.
pub fn key_order(p: &KnapsackProblem, mode: ItemOrder) -> (o: KeyOrder)
    ensures
        o.keys@.len() == p.n(),
        forall|i: int| 0 <= i < p.n() ==> o.keys@[i] == item_key(p, mode, i),
        o.descending == falling(mode),
        forall|a: usize, b: usize|
            a < p.n() && b < p.n() ==> o.before(a, b) == item_before(p, mode, a, b),
{
    let mut keys: Vec<Ratio> = Vec::new();
    let n = p.items.len();
    let mut i: usize = 0;
    while i < n
        invariant
            i <= n,
            n == p.n(),
            keys@.len() == i,
            forall|k: int| 0 <= k < i ==> keys@[k] == item_key(p, mode, k),
        decreases n - i,
    {
        let it = p.items[i];
        let key = match mode {
            ItemOrder::DensityDesc | ItemOrder::DensityAsc => Ratio { num: it.value, den: it.weight },
            ItemOrder::ValueDesc => Ratio { num: it.value, den: 1 },
            ItemOrder::WeightAsc | ItemOrder::WeightDesc => Ratio { num: it.weight, den: 1 },
        };
        keys.push(key);
        i = i + 1;
    }
    let descending = match mode {
        ItemOrder::DensityDesc | ItemOrder::ValueDesc | ItemOrder::WeightDesc => true,
        _ => false,
    };
    KeyOrder { keys, descending }
}

/// The indices `0..n` in rising order.
pub fn all_indices(n: usize) -> (v: Vec<usize>)
    ensures
        v@.len() == n,
        forall|i: int| 0 <= i < n ==> #[trigger] v@[i] == i,
        v@.no_duplicates(),
        index_perm(v@, n as nat),
{
    let mut v: Vec<usize> = Vec::with_capacity(n);
    let mut i: usize = 0;
    while i < n
        invariant
            i <= n,
            v@.len() == i,
            forall|k: int| 0 <= k < i ==> #[trigger] v@[k] == k,
        decreases n - i,
    {
        v.push(i);
        i = i + 1;
    }
    proof {
        assert forall|x: usize| x < n implies #[trigger] v@.contains(x) by {
            assert(v@[x as int] == x);
        }
    }
    v
}

/// Sorts the distinct item indices `v` by `mode`.
pub fn sort_items(p: &KnapsackProblem, mode: ItemOrder, v: Vec<usize>) -> (r: Vec<usize>)
    requires
        v@.no_duplicates(),
        forall|i: int| 0 <= i < v@.len() ==> #[trigger] v@[i] < p.n(),
        v@.len() >= 2 && (mode == ItemOrder::DensityDesc || mode == ItemOrder::DensityAsc)
            ==> densities_defined(p, v@),
    ensures
        r@.len() == v@.len(),
        r@.no_duplicates(),
        forall|x: usize| r@.contains(x) <==> v@.contains(x),
        forall|i: int, j: int|
            0 <= i < j < r@.len() ==> item_before(p, mode, #[trigger] r@[i], #[trigger] r@[j]),
{
    let ord = key_order(p, mode);
    proof {
        if v@.len() >= 2 {
            assert forall|i: int| 0 <= i < v@.len() implies ord.in_domain(#[trigger] v@[i]) by {
                assert(v@[i] < p.n());
                assert(ord.keys@[v@[i] as int] == item_key(p, mode, v@[i] as int));
            }
        }
    }
    let r = sort_indices(&ord, v);
    proof {
        assert forall|i: int, j: int| 0 <= i < j < r@.len() implies item_before(
            p,
            mode,
            #[trigger] r@[i],
            #[trigger] r@[j],
        ) by {
            assert(ord.before(r@[i], r@[j]));
            assert(r@.contains(r@[i]) && r@.contains(r@[j]));
            let a = choose|a: int| 0 <= a < v@.len() && v@[a] == r@[i];
            let b = choose|b: int| 0 <= b < v@.len() && v@[b] == r@[j];
        }
    }
    r
}

/// The items `0..n` sorted by `mode`.
pub fn rank_items(p: &KnapsackProblem, mode: ItemOrder) -> (r: Vec<usize>)
    requires
        p.n() >= 2 && (mode == ItemOrder::DensityDesc || mode == ItemOrder::DensityAsc)
            ==> densities_defined(p, Seq::new(p.n(), |i: int| i as usize)),
    ensures
        ranked(p, mode, r@),
{
    let n = p.items.len();
    let v = all_indices(n);
    proof {
        assert(v@ =~= Seq::new(p.n(), |i: int| i as usize));
    }
    let r = sort_items(p, mode, v);
    proof {
        assert forall|i: int| 0 <= i < r@.len() implies #[trigger] r@[i] < n by {
            assert(r@.contains(r@[i]));
            let k = choose|k: int| 0 <= k < v@.len() && v@[k] == r@[i];
        }
        assert forall|x: usize| x < n implies #[trigger] r@.contains(x) by {
            assert(v@.contains(x));
        }
    }
    r
}

/// The items sorted by value per unit of weight, highest first; among items of
/// equal density the lower index comes first. Densities are compared as exact
/// fractions (by cross-multiplication), not as `f64` quotients: two densities
/// that differ only beyond the precision of a double are ordered by their true
/// values here, where a floating-point comparison would call them equal.
pub fn density_order(problem: &KnapsackProblem) -> (order: Vec<usize>)
    requires
        problem.n() >= 2 ==> densities_defined(problem, Seq::new(problem.n(), |i: int| i as usize)),
    ensures
        ranked(problem, ItemOrder::DensityDesc, order@),
{
    rank_items(problem, ItemOrder::DensityDesc)
}

/// What filling `c` greedily along `order` gives: each item in turn goes in
/// when it still fits.
pub open spec fn greedy_run(c: CandidateView, order: Seq<usize>, p: &KnapsackProblem) -> CandidateView
    decreases order.len(),
{
    if order.len() == 0 {
        c
    } else {
        let before = greedy_run(c, order.drop_last(), p);
        let idx = order.last() as int;
        if before.weight + p.weights()[idx] <= p.capacity {
            before.with_item(idx, p)
        } else {
            before
        }
    }
}

/// At each step of filling `c` along `order`, the weight so far plus the weight
/// of the next item fits in 64 bits (the sum the fill compares with capacity).
pub open spec fn greedy_sums_fit(c: CandidateView, order: Seq<usize>, p: &KnapsackProblem) -> bool {
    forall|k: int|
        #![trigger order[k]]
        0 <= k < order.len() ==> greedy_run(c, order.take(k), p).weight + p.weights()[order[k] as int]
            <= u64::MAX
}

/// Filling keeps the cached totals right.
pub proof fn lemma_greedy_wf(c: CandidateView, order: Seq<usize>, p: &KnapsackProblem)
    requires
        c.wf(p),
        forall|k: int| 0 <= k < order.len() ==> #[trigger] order[k] < p.n(),
    ensures
        greedy_run(c, order, p).wf(p),
    decreases order.len(),
{
    if order.len() > 0 {
        lemma_greedy_wf(c, order.drop_last(), p);
        lemma_candidate_with_item(greedy_run(c, order.drop_last(), p), order.last() as int, p);
    }
}

/// Filling along `order` leaves an item that `order` does not list as it was.
pub proof fn lemma_greedy_untouched(c: CandidateView, order: Seq<usize>, p: &KnapsackProblem, x: int)
    requires
        c.wf(p),
        forall|k: int| 0 <= k < order.len() ==> #[trigger] order[k] < p.n(),
        0 <= x < p.n(),
        !order.contains(x as usize),
    ensures
        greedy_run(c, order, p).genes[x] == c.genes[x],
    decreases order.len(),
{
    if order.len() > 0 {
        let before = order.drop_last();
        assert(!before.contains(x as usize)) by {
            if before.contains(x as usize) {
                let j = choose|j: int| 0 <= j < before.len() && before[j] == x as usize;
                assert(order[j] == x as usize);
            }
        }
        assert(order.last() != x as usize) by {
            assert(order[order.len() - 1] == order.last());
        }
        lemma_greedy_untouched(c, before, p, x);
        lemma_greedy_wf(c, before, p);
        lemma_candidate_with_item(greedy_run(c, before, p), order.last() as int, p);
    }
}

/// Filling the empty bag along a list of items without repeats never overflows.
pub proof fn lemma_greedy_fresh_fits(c: CandidateView, order: Seq<usize>, p: &KnapsackProblem)
    requires
        p.sums_fit(),
        c.wf(p),
        order.no_duplicates(),
        forall|k: int| 0 <= k < order.len() ==> #[trigger] order[k] < p.n(),
        forall|k: int| 0 <= k < order.len() ==> !c.genes[#[trigger] order[k] as int],
    ensures
        greedy_sums_fit(c, order, p),
{
    assert forall|k: int| #![trigger order[k]] 0 <= k < order.len() implies greedy_run(c, order.take(k), p).weight
        + p.weights()[order[k] as int] <= u64::MAX by {
        let pre = order.take(k);
        let x = order[k] as int;
        assert forall|j: int| 0 <= j < pre.len() implies #[trigger] pre[j] < p.n() by {
            assert(pre[j] == order[j]);
        }
        assert(!pre.contains(x as usize)) by {
            if pre.contains(x as usize) {
                let j = choose|j: int| 0 <= j < pre.len() && pre[j] == x as usize;
                assert(order[j] == order[k]);
            }
        }
        lemma_greedy_untouched(c, pre, p, x);
        lemma_greedy_wf(c, pre, p);
        lemma_sum_room(p, greedy_run(c, pre, p).genes, x);
    }
}

/// Filling only puts items in, and leaves each listed item in the bag or too
/// heavy for what is left.
pub proof fn lemma_greedy_fills(c: CandidateView, order: Seq<usize>, p: &KnapsackProblem)
    requires
        forall|k: int| 0 <= k < order.len() ==> #[trigger] order[k] < p.n(),
        c.genes.len() == p.n(),
    ensures
        greedy_run(c, order, p).genes.len() == c.genes.len(),
        greedy_run(c, order, p).weight >= c.weight,
        forall|i: int| 0 <= i < c.genes.len() && c.genes[i] ==> #[trigger] greedy_run(c, order, p).genes[i],
        forall|i: int|
            0 <= i < c.genes.len() && #[trigger] greedy_run(c, order, p).genes[i] && !c.genes[i]
                ==> order.contains(i as usize),
        forall|k: int|
            0 <= k < order.len() ==> greedy_run(c, order, p).genes[#[trigger] order[k] as int]
                || greedy_run(c, order, p).weight + p.weights()[order[k] as int] > p.capacity,
    decreases order.len(),
{
    if order.len() > 0 {
        let before = order.drop_last();
        lemma_greedy_fills(c, before, p);
        let b = greedy_run(c, before, p);
        let r = greedy_run(c, order, p);
        let idx = order.last() as int;
        assert(order[order.len() - 1] == order.last());
        assert forall|i: int| 0 <= i < c.genes.len() && #[trigger] r.genes[i] && !c.genes[i] implies order.contains(
            i as usize,
        ) by {
            if i != idx {
                assert(b.genes[i]);
                let j = choose|j: int| 0 <= j < before.len() && before[j] == i as usize;
                assert(order[j] == i as usize);
            }
        }
        assert forall|k: int| 0 <= k < order.len() implies r.genes[#[trigger] order[k] as int] || r.weight
            + p.weights()[order[k] as int] > p.capacity by {
            if k < order.len() - 1 {
                assert(order[k] == before[k]);
            }
        }
    }
}

/// Goes through `order` and puts in each item that still fits (an item already
/// in the bag stays as it is).
pub fn greedy_fill(cand: &mut Candidate, order: &[usize], problem: &KnapsackProblem)
    requires
        problem.sums_fit(),
        old(cand).wf(problem),
        forall|k: int| 0 <= k < order@.len() ==> #[trigger] order@[k] < problem.n(),
        greedy_sums_fit(old(cand)@, order@, problem),
    ensures
        final(cand)@ == greedy_run(old(cand)@, order@, problem),
        final(cand).wf(problem),
        old(cand)@.feasible(problem) ==> final(cand)@.feasible(problem),
        forall|i: int|
            0 <= i < problem.n() && old(cand).genes@[i] ==> #[trigger] final(cand).genes@[i],
        forall|i: int|
            0 <= i < problem.n() && #[trigger] final(cand).genes@[i] && !old(cand).genes@[i]
                ==> order@.contains(i as usize),
        forall|k: int|
            0 <= k < order@.len() ==> final(cand).genes@[#[trigger] order@[k] as int] || final(cand).weight
                + problem.weights()[order@[k] as int] > problem.capacity,
{
    let ghost start = cand@;
    let mut k: usize = 0;
    while k < order.len()
        invariant
            problem.sums_fit(),
            k <= order@.len(),
            cand.wf(problem),
            cand@ == greedy_run(start, order@.subrange(0, k as int), problem),
            start.feasible(problem) ==> cand@.feasible(problem),
            forall|m: int| 0 <= m < order@.len() ==> #[trigger] order@[m] < problem.n(),
            greedy_sums_fit(start, order@, problem),
        decreases order@.len() - k,
    {
        let idx = order[k];
        proof {
            assert(order@.take(k as int) =~= order@.subrange(0, k as int));
            assert(order@[k as int] == idx);
            lemma_room_for(cand@, idx as int, problem);
            assert(order@.subrange(0, k + 1).drop_last() =~= order@.subrange(0, k as int));
        }
        if cand.weight + problem.items[idx].weight <= problem.capacity {
            cand.add(idx, problem);
        }
        k = k + 1;
    }
    proof {
        assert(order@.subrange(0, order@.len() as int) =~= order@);
        lemma_greedy_fills(start, order@, problem);
    }
}

} // verus!
